use sidewars::collision::{collision_system, overlaps};
use sidewars::fighter::{Fighter, Unit, FIGHTER_SIZE, UNITS_PER_PIXEL};
use sidewars::movement::{lane_wrap, movement_system};
use sidewars::sim::{START_LEFT, START_RIGHT};
use sidewars::skills::{exit_on_esc_system, preset_for, Button, Preset, Skills};
use sidewars::world::{credit, World};

fn unit(id: u64, x: i64, y: i64, flipped: bool, preset: Preset) -> Unit {
    Unit { id, x, y, flipped, fighter: Fighter::new(preset.skills()) }
}

fn px(v: i64) -> i64 {
    v * UNITS_PER_PIXEL
}

#[test]
fn presets_hold_their_stats() {
    let p = Preset::Private.skills();
    assert_eq!(p, Skills { price: 2, attack: 15, defence: 15, strength: 5, hp: 20, speed: 30, siege: 5 });
    let f = Preset::Fighter.skills();
    assert_eq!(f, Skills { price: 3, attack: 30, defence: 5, strength: 10, hp: 15, speed: 35, siege: 7 });
    let s = Preset::Shieldsman.skills();
    assert_eq!(s, Skills { price: 3, attack: 5, defence: 30, strength: 5, hp: 30, speed: 20, siege: 1 });
}

#[test]
fn buttons_pick_presets() {
    assert_eq!(preset_for(Button::Left), Some(Preset::Fighter));
    assert_eq!(preset_for(Button::Middle), Some(Preset::Private));
    assert_eq!(preset_for(Button::Right), Some(Preset::Shieldsman));
    assert_eq!(preset_for(Button::Other), None);
}

#[test]
fn quit_chord_needs_both_keys() {
    assert!(exit_on_esc_system(true, true));
    assert!(!exit_on_esc_system(false, true));
    assert!(!exit_on_esc_system(true, false));
}

#[test]
fn new_fighter_is_fresh() {
    let f = Fighter::new(Preset::Shieldsman.skills());
    assert_eq!(f.hp, 30);
    assert_eq!(f.protection, 0);
    assert_eq!(f.fighting, None);
    assert_eq!(f.attack_cooldown, 0);
    assert!(!f.waiting);
    assert!(f.moving());
    let mut g = f;
    g.waiting = true;
    assert!(!g.moving());
    let mut h = f;
    h.fighting = Some(4);
    assert!(!h.moving());
}

#[test]
fn credit_saturates() {
    assert_eq!(credit(5, 3), 8);
    assert_eq!(credit(i16::MAX - 1, 200), i16::MAX);
}

#[test]
fn boxes_touching_at_the_edge_overlap() {
    let a = unit(0, 0, 0, false, Preset::Private);
    let b = unit(1, FIGHTER_SIZE, 0, true, Preset::Private);
    let c = unit(2, FIGHTER_SIZE + 1, 0, true, Preset::Private);
    let d = unit(3, 0, -FIGHTER_SIZE - 1, true, Preset::Private);
    assert!(overlaps(&a, &b));
    assert!(!overlaps(&a, &c));
    assert!(!overlaps(&a, &d));
}

#[test]
fn rear_unit_waits_walking_right() {
    // left side walks toward +x: the unit further left is behind
    let mut us = vec![unit(0, px(0), 0, false, Preset::Private), unit(1, px(10), 0, false, Preset::Private)];
    collision_system(&mut us);
    assert!(us[0].fighter.waiting);
    assert!(!us[1].fighter.waiting);
    let mut us = vec![unit(0, px(10), 0, false, Preset::Private), unit(1, px(0), 0, false, Preset::Private)];
    collision_system(&mut us);
    assert!(!us[0].fighter.waiting);
    assert!(us[1].fighter.waiting);
}

#[test]
fn rear_unit_waits_walking_left() {
    // right side walks toward -x: the unit further right is behind
    let mut us = vec![unit(0, px(0), 0, true, Preset::Private), unit(1, px(10), 0, true, Preset::Private)];
    collision_system(&mut us);
    assert!(!us[0].fighter.waiting);
    assert!(us[1].fighter.waiting);
    let mut us = vec![unit(0, px(10), 0, true, Preset::Private), unit(1, px(0), 0, true, Preset::Private)];
    collision_system(&mut us);
    assert!(us[0].fighter.waiting);
    assert!(!us[1].fighter.waiting);
}

#[test]
fn opposite_sides_engage_each_other() {
    let mut us = vec![unit(7, px(0), 0, false, Preset::Fighter), unit(9, px(20), 0, true, Preset::Fighter)];
    collision_system(&mut us);
    assert_eq!(us[0].fighter.fighting, Some(9));
    assert_eq!(us[1].fighter.fighting, Some(7));
    assert!(!us[0].fighter.waiting && !us[1].fighter.waiting);
}

#[test]
fn waiting_is_derived_anew_each_sweep() {
    // unit 0 waits behind unit 1 and is far from unit 2: it waits
    let mut a = unit(0, px(0), 0, false, Preset::Private);
    a.fighter.waiting = true;
    let mut us = vec![a, unit(1, px(10), 0, false, Preset::Private), unit(2, px(500), 0, false, Preset::Private)];
    collision_system(&mut us);
    assert!(us[0].fighter.waiting);
    // once the leader is gone it is released
    let mut us = vec![us[0], us[2]];
    collision_system(&mut us);
    assert!(!us[0].fighter.waiting);
    // a unit blocked by one neighbour and apart from another keeps waiting
    let mut us = vec![unit(5, px(500), 0, false, Preset::Private), unit(3, px(0), 0, false, Preset::Private),
        unit(4, px(10), 0, false, Preset::Private)];
    collision_system(&mut us);
    assert!(us[1].fighter.waiting);
    assert!(!us[0].fighter.waiting && !us[2].fighter.waiting);
}

#[test]
fn lone_waiting_unit_is_released() {
    let mut a = unit(0, px(0), 0, false, Preset::Private);
    a.fighter.waiting = true;
    let mut us = vec![a];
    collision_system(&mut us);
    assert!(!us[0].fighter.waiting);
}

#[test]
fn engaged_unit_waiting_alone_is_released() {
    let mut a = unit(0, px(0), 0, false, Preset::Private);
    a.fighter.waiting = true;
    let mut us = vec![a, unit(1, px(5), 0, true, Preset::Fighter)];
    collision_system(&mut us);
    assert!(!us[0].fighter.waiting);
    assert_eq!(us[0].fighter.fighting, Some(1));
}

#[test]
fn sweep_result_does_not_depend_on_listing_order() {
    let a = unit(1, px(0), 0, false, Preset::Private);
    let mut b = unit(2, px(10), 0, false, Preset::Private);
    b.fighter.waiting = true;
    let c = unit(3, px(30), px(5), true, Preset::Fighter);
    let d = unit(4, px(400), 0, true, Preset::Fighter);
    let mut first = vec![a, b, c, d];
    let mut second = vec![d, a, c, b];
    collision_system(&mut first);
    collision_system(&mut second);
    for u in &first {
        let v = second.iter().find(|v| v.id == u.id).unwrap();
        assert_eq!(u.fighter.waiting, v.fighter.waiting);
        assert_eq!(u.fighter.fighting, v.fighter.fighting);
    }
    let a2 = first.iter().find(|v| v.id == 1).unwrap();
    assert!(a2.fighter.waiting);
    let b2 = first.iter().find(|v| v.id == 2).unwrap();
    assert_eq!(b2.fighter.fighting, Some(3));
}

#[test]
fn lane_wrap_keeps_the_band() {
    assert_eq!(lane_wrap(0, 100), 0);
    assert_eq!(lane_wrap(49, 100), 49);
    assert_eq!(lane_wrap(50, 100), -50);
    assert_eq!(lane_wrap(-50, 100), -50);
    assert_eq!(lane_wrap(-51, 100), 49);
    assert_eq!(lane_wrap(260, 100), -40);
}

#[test]
fn free_units_walk_and_blocked_ones_stay() {
    let mut w = World::new(px(800), px(600));
    assert_eq!(w.money.left, START_LEFT);
    assert_eq!(w.money.right, START_RIGHT);
    let mut blocked = unit(1, 0, 0, false, Preset::Private);
    blocked.fighter.waiting = true;
    w.units = vec![unit(0, 0, 0, false, Preset::Private), blocked, unit(2, 0, 0, true, Preset::Fighter)];
    w.next_id = 3;
    movement_system(&mut w, 1_000_000, px(600));
    // 3 units per microsecond per point of speed: 90 px per second at speed 30
    assert_eq!(w.units[0].x, px(90));
    assert_eq!(w.units[1].x, 0);
    assert_eq!(w.units[2].x, -px(105));
}
