use sidewars::economy::{soldier_placement_system, spawn_attempt, spawner_system, SPAWN_WIDTH};
use sidewars::fighter::{MouseLoc, UNITS_PER_PIXEL};
use sidewars::skills::{Button, Preset};
use sidewars::timeout::timeout_system;
use sidewars::world::{Effect, Timeout, World, ONE_SECOND};
use sidewars::combat::EFFECT_LIFETIME;

fn field() -> World {
    World::new(800 * UNITS_PER_PIXEL, 600 * UNITS_PER_PIXEL)
}

#[test]
fn click_in_zone_buys_and_pays() {
    let mut w = field();
    let loc = MouseLoc { x: -w.zone.x, y: 7 };
    soldier_placement_system(&mut w, loc, &vec![Button::Left, Button::Other, Button::Middle]);
    assert_eq!(w.units.len(), 2);
    assert_eq!(w.money.left, 30 - 3 - 2);
    assert_eq!(w.units[0].x, -w.zone.x);
    assert_eq!(w.units[0].y, 7);
    assert!(!w.units[0].flipped);
    assert_eq!(w.units[0].fighter.skills, Preset::Fighter.skills());
    assert_eq!(w.units[1].fighter.skills, Preset::Private.skills());
    assert_ne!(w.units[0].id, w.units[1].id);
}

#[test]
fn click_outside_zone_does_nothing() {
    let mut w = field();
    let loc = MouseLoc { x: -w.zone.x + SPAWN_WIDTH / 2, y: 0 };
    soldier_placement_system(&mut w, loc, &vec![Button::Left]);
    assert!(w.units.is_empty());
    assert_eq!(w.money.left, 30);
}

#[test]
fn click_without_funds_does_nothing() {
    let mut w = field();
    w.money.left = 2;
    let loc = MouseLoc { x: -w.zone.x, y: 0 };
    soldier_placement_system(&mut w, loc, &vec![Button::Right, Button::Middle, Button::Middle]);
    assert_eq!(w.units.len(), 1);
    assert_eq!(w.units[0].fighter.skills, Preset::Private.skills());
    assert_eq!(w.money.left, 0);
}

#[test]
fn broke_spawner_never_spawns() {
    let mut w = field();
    w.money.right = 0;
    for _ in 0..50 {
        spawner_system(&mut w, 4_000_000);
        assert!(w.units.is_empty());
        assert!(w.zone.timer >= 0);
    }
    w.money.right = 1;
    spawner_system(&mut w, 4_000_000);
    assert!(w.units.is_empty());
    // a credit up to the cheapest price lets spawning resume
    w.money.right = 2;
    let mut spawned = false;
    for _ in 0..200 {
        spawner_system(&mut w, 4_000_000);
        if !w.units.is_empty() {
            spawned = true;
            break;
        }
    }
    assert!(spawned);
    assert_eq!(w.money.right, 0);
    assert_eq!(w.units[0].fighter.skills, Preset::Private.skills());
}

#[test]
fn spawner_draws_presets_and_lanes_in_range() {
    let mut w = field();
    w.money.right = 1000;
    spawner_system(&mut w, 3_000_000);
    assert!(!w.units.is_empty());
    let half = w.zone.height / 2;
    let presets = [Preset::Private.skills(), Preset::Fighter.skills(), Preset::Shieldsman.skills()];
    for u in &w.units {
        assert!(u.flipped);
        assert_eq!(u.x, w.zone.x);
        assert!(-half <= u.y && u.y < w.zone.height - half);
        assert!(presets.contains(&u.fighter.skills));
    }
    assert!(w.money.right < 1000);
    let kinds: std::collections::BTreeSet<u8> = w.units.iter().map(|u| u.fighter.skills.hp).collect();
    assert!(kinds.len() > 1);
    let lanes: std::collections::BTreeSet<i64> = w.units.iter().map(|u| u.y).collect();
    assert!(lanes.len() > 1);
    assert!(w.zone.timer >= 0 && w.zone.timer <= ONE_SECOND);
}

#[test]
fn spawn_attempt_sets_the_next_interval() {
    let mut w = field();
    w.money.right = 70;
    let mut timer: i64 = -5;
    assert!(spawn_attempt(&mut w, &mut timer, Preset::Shieldsman, 3));
    assert_eq!(timer, -5 + ONE_SECOND / 10);
    assert_eq!(w.money.right, 67);
    assert_eq!(w.units[0].y, 3);
    w.money.right = 2;
    let mut timer: i64 = -5;
    assert!(!spawn_attempt(&mut w, &mut timer, Preset::Fighter, 3));
    assert_eq!(timer, -5);
    assert_eq!(w.units.len(), 1);
}

#[test]
fn countdown_removes_itself_and_tied_number() {
    let mut w = field();
    w.effects.push(Effect { id: 0, x: 0, y: 0, label: Some(4), timeout: None });
    w.effects.push(Effect { id: 1, x: 0, y: 0, label: None, timeout: Some(Timeout::new(EFFECT_LIFETIME).tied_to(vec![0])) });
    w.effects.push(Effect { id: 2, x: 0, y: 0, label: Some(1), timeout: None });
    w.next_id = 3;
    timeout_system(&mut w, 1_000_000);
    assert_eq!(w.effects.len(), 3);
    timeout_system(&mut w, 149_999);
    assert_eq!(w.effects.len(), 3);
    assert_eq!(w.effects[1].timeout.as_ref().unwrap().time_left, 1);
    timeout_system(&mut w, 2);
    assert_eq!(w.effects.len(), 1);
    assert_eq!(w.effects[0].id, 2);
}

#[test]
fn countdown_takes_a_tied_unit_too() {
    let mut w = field();
    let loc = MouseLoc { x: -w.zone.x, y: 0 };
    soldier_placement_system(&mut w, loc, &vec![Button::Middle]);
    let uid = w.units[0].id;
    w.effects.push(Effect { id: w.next_id, x: 0, y: 0, label: None, timeout: Some(Timeout::new(0).tied_to(vec![uid])) });
    w.next_id += 1;
    timeout_system(&mut w, 0);
    assert!(w.units.is_empty());
    assert!(w.effects.is_empty());
}

#[test]
fn ticks_keep_health_and_balances_in_bounds() {
    let mut w = field();
    w.money.right = 200;
    for i in 0..300 {
        let clicks = if i % 10 == 0 { vec![Button::Left] } else { vec![] };
        let loc = MouseLoc { x: -w.zone.x, y: (i as i64 % 50) * UNITS_PER_PIXEL };
        w.tick(33_000, 800 * UNITS_PER_PIXEL, 600 * UNITS_PER_PIXEL, loc, &clicks);
        for u in &w.units {
            assert!(u.fighter.hp <= u.fighter.skills.hp);
        }
        assert!(w.money.left >= 0 && w.money.right >= 0);
    }
}

#[test]
fn empty_field_tick_changes_nothing_but_the_timer() {
    let mut w = field();
    w.money.right = 0;
    w.tick(10_000, 800 * UNITS_PER_PIXEL, 600 * UNITS_PER_PIXEL, MouseLoc::default(), &vec![]);
    assert!(w.units.is_empty());
    assert!(w.effects.is_empty());
    assert_eq!(w.money.left, 30);
    assert_eq!(w.zone.timer, ONE_SECOND - 10_000);
}

#[test]
fn spawner_waits_while_countdown_runs() {
    let mut w = field();
    spawner_system(&mut w, 400_000);
    assert!(w.units.is_empty());
    assert_eq!(w.money.right, 25);
    assert_eq!(w.zone.timer, ONE_SECOND - 400_000);
    // once it runs out with every preset affordable, a unit is owed
    spawner_system(&mut w, 700_000);
    assert!(!w.units.is_empty());
    let spent: i16 = w.units.iter().map(|u| u.fighter.skills.price as i16).sum();
    assert_eq!(w.money.right, 25 - spent);
}
