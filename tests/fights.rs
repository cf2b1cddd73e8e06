use sidewars::collision::collision_system;
use sidewars::combat::{combat_system, cooldown_phase, dealt, resolve_attack, Attack, Rolls, EFFECT_LIFETIME, MARK_RISE};
use sidewars::dice::roll;
use sidewars::fighter::{Fighter, Unit, COOLDOWN, UNITS_PER_PIXEL};
use sidewars::siege::siege_system;
use sidewars::skills::{Preset, Skills};
use sidewars::world::World;

fn brute() -> Skills {
    Skills { price: 1, attack: 255, defence: 0, strength: 10, hp: 40, speed: 10, siege: 3 }
}

fn unit(id: u64, x: i64, flipped: bool, skills: Skills) -> Unit {
    Unit { id, x, y: 0, flipped, fighter: Fighter::new(skills) }
}

fn world_with(units: Vec<Unit>) -> World {
    let mut w = World::new(800 * UNITS_PER_PIXEL, 600 * UNITS_PER_PIXEL);
    w.next_id = units.iter().map(|u| u.id + 1).max().unwrap_or(0);
    w.units = units;
    w
}

#[test]
fn dealt_damage_follows_the_dice() {
    assert_eq!(dealt(&Rolls { hit: 5, guard: 4, damage: 7, reduction: 2 }), 5);
    assert_eq!(dealt(&Rolls { hit: 4, guard: 4, damage: 7, reduction: 2 }), 0);
    assert_eq!(dealt(&Rolls { hit: 9, guard: 0, damage: 2, reduction: 5 }), 0);
}

#[test]
fn rolls_stay_in_range() {
    for _ in 0..500 {
        let r = roll(3, 9);
        assert!((3..=9).contains(&r));
    }
    assert_eq!(roll(4, 4), 4);
    let mut seen = std::collections::BTreeSet::new();
    for _ in 0..500 {
        seen.insert(roll(0, 255));
    }
    assert!(seen.len() > 1);
}

#[test]
fn rearming_saturates_the_cooldown() {
    let mut w = world_with(vec![unit(0, 0, false, brute())]);
    w.units[0].fighter.attack_cooldown = u64::MAX - 3;
    let a = Attack { attacker: 0, target: 5, skills: brute() };
    w.units[0].fighter.fighting = Some(5);
    resolve_attack(&mut w, &a, Rolls { hit: 0, guard: 0, damage: 1, reduction: 0 });
    assert_eq!(w.units[0].fighter.attack_cooldown, u64::MAX);
    assert_eq!(w.units[0].fighter.fighting, None);
}

#[test]
fn defenceless_pair_takes_damage_on_first_exchange() {
    let mut w = world_with(vec![unit(0, 0, false, brute()), unit(1, 20 * UNITS_PER_PIXEL, true, brute())]);
    w.units[1].fighter.hp = 25;
    collision_system(&mut w.units);
    let attacks = cooldown_phase(&mut w.units, 16_000);
    assert_eq!(attacks.len(), 2);
    // every hit roll above zero lands against a guard of zero
    for hit in 1..=255u8 {
        let mut trial = world_with(w.units.clone());
        let before = trial.units[1].fighter.hp;
        resolve_attack(&mut trial, &attacks[0], Rolls { hit, guard: 0, damage: 1, reduction: 0 });
        assert!(trial.units[1].fighter.hp < before);
    }
    resolve_attack(&mut w, &attacks[0], Rolls { hit: 200, guard: 0, damage: 6, reduction: 0 });
    assert_eq!(w.units[1].fighter.hp, 19);
    assert_eq!(w.units[0].fighter.attack_cooldown, COOLDOWN);
    assert_eq!(w.effects.len(), 2);
    assert_eq!(w.effects[0].label, Some(6));
    assert_eq!(w.effects[0].y, MARK_RISE);
    let t = w.effects[1].timeout.as_ref().unwrap();
    assert_eq!(t.time_left, EFFECT_LIFETIME);
    assert_eq!(t.tied_to, vec![w.effects[0].id]);
}

#[test]
fn miss_still_spends_the_cooldown() {
    let mut w = world_with(vec![unit(0, 0, false, brute()), unit(1, 0, true, brute())]);
    collision_system(&mut w.units);
    let attacks = cooldown_phase(&mut w.units, 0);
    resolve_attack(&mut w, &attacks[0], Rolls { hit: 0, guard: 0, damage: 5, reduction: 0 });
    assert_eq!(w.units[1].fighter.hp, 40);
    assert_eq!(w.units[0].fighter.attack_cooldown, COOLDOWN);
    assert!(w.effects.is_empty());
}

#[test]
fn kill_removes_defender_and_pays_other_side() {
    let mut w = world_with(vec![unit(0, 0, false, brute()), unit(1, 0, true, brute())]);
    w.units[1].fighter.hp = 3;
    collision_system(&mut w.units);
    let attacks = cooldown_phase(&mut w.units, 0);
    let left = w.money.left;
    let right = w.money.right;
    resolve_attack(&mut w, &attacks[0], Rolls { hit: 10, guard: 0, damage: 9, reduction: 0 });
    assert_eq!(w.units.len(), 1);
    assert_eq!(w.units[0].id, 0);
    assert_eq!(w.money.left, left + 1);
    assert_eq!(w.money.right, right);
    // the second attack, by the fallen unit, does nothing
    let before = w.units[0];
    resolve_attack(&mut w, &attacks[1], Rolls { hit: 10, guard: 0, damage: 9, reduction: 0 });
    assert_eq!(w.units[0].fighter.hp, before.fighter.hp);
}

#[test]
fn kill_of_left_unit_pays_right_side() {
    let mut w = world_with(vec![unit(0, 0, false, brute()), unit(1, 0, true, brute())]);
    w.units[0].fighter.hp = 1;
    collision_system(&mut w.units);
    let right = w.money.right;
    let a = Attack { attacker: 1, target: 0, skills: brute() };
    resolve_attack(&mut w, &a, Rolls { hit: 1, guard: 0, damage: 1, reduction: 0 });
    assert_eq!(w.money.right, right + 1);
    assert_eq!(w.units.len(), 1);
}

#[test]
fn protection_reduces_damage_without_wrapping() {
    let mut w = world_with(vec![unit(0, 0, false, brute()), unit(1, 0, true, brute())]);
    w.units[1].fighter.protection = 8;
    let a = Attack { attacker: 0, target: 1, skills: brute() };
    resolve_attack(&mut w, &a, Rolls { hit: 9, guard: 0, damage: 3, reduction: 8 });
    assert_eq!(w.units[1].fighter.hp, 40);
    assert_eq!(w.effects[0].label, Some(0));
}

#[test]
fn cooldown_counts_down_and_hands_out_attacks() {
    let mut us = vec![unit(0, 0, false, brute()), unit(1, 0, true, brute()), unit(2, 900, false, brute())];
    us[0].fighter.fighting = Some(1);
    us[0].fighter.attack_cooldown = 500;
    us[1].fighter.fighting = Some(0);
    us[1].fighter.attack_cooldown = 2_000;
    let attacks = cooldown_phase(&mut us, 700);
    assert_eq!(us[0].fighter.attack_cooldown, 0);
    assert_eq!(us[1].fighter.attack_cooldown, 1_300);
    assert_eq!(us[2].fighter.attack_cooldown, 0);
    assert_eq!(attacks, vec![Attack { attacker: 0, target: 1, skills: brute() }]);
}

#[test]
fn sieging_mid_fight_leaves_a_clean_opponent() {
    let half = 400 * UNITS_PER_PIXEL;
    let mut w = world_with(vec![unit(0, half + 1, false, brute()), unit(1, half - 10, true, brute())]);
    w.units[0].fighter.fighting = Some(1);
    w.units[1].fighter.fighting = Some(0);
    let left = w.money.left;
    siege_system(&mut w, half);
    assert_eq!(w.units.len(), 1);
    assert_eq!(w.money.left, left + 3);
    // next tick the opponent finds its target gone and lets go
    let attacks = cooldown_phase(&mut w.units, 10);
    assert_eq!(attacks.len(), 1);
    resolve_attack(&mut w, &attacks[0], Rolls { hit: 0, guard: 0, damage: 1, reduction: 0 });
    assert_eq!(w.units[0].fighter.fighting, None);
    assert_eq!(w.units[0].fighter.attack_cooldown, COOLDOWN);
    assert!(w.units[0].fighter.moving());
}

#[test]
fn siege_pays_each_side_for_its_own_units() {
    let half = 100;
    let s = Preset::Fighter.skills();
    let mut w = world_with(vec![unit(0, 101, false, s), unit(1, -101, true, s), unit(2, 101, true, s), unit(3, 0, false, s)]);
    let (left, right) = (w.money.left, w.money.right);
    siege_system(&mut w, half);
    assert_eq!(w.units.iter().map(|u| u.id).collect::<Vec<_>>(), vec![2, 3]);
    assert_eq!(w.money.left, left + 7);
    assert_eq!(w.money.right, right + 7);
}

#[test]
fn combat_step_only_lowers_health_and_rearms() {
    let mut w = world_with(vec![unit(0, 0, false, brute()), unit(1, 0, true, brute()), unit(2, 9000 * UNITS_PER_PIXEL, true, brute())]);
    collision_system(&mut w.units);
    combat_system(&mut w, 10_000);
    for u in &w.units {
        assert!(u.fighter.hp <= 40);
        assert_eq!(u.fighter.skills, brute());
    }
    let lone = w.units.iter().find(|u| u.id == 2).unwrap();
    assert_eq!(lone.fighter.attack_cooldown, 0);
    for id in [0u64, 1] {
        if let Some(u) = w.units.iter().find(|u| u.id == id) {
            assert_eq!(u.fighter.attack_cooldown, COOLDOWN);
        }
    }
}
