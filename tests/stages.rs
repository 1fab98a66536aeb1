use bracket_lib::random::RandomNumberGenerator;
use harvest_captain::combat::ApplyAttackSystem;
use harvest_captain::components::{Attacking, Moving, Position};
use harvest_captain::demo::{configure_farm, configure_goblin, configure_house, configure_player, configure_tree};
use harvest_captain::game::{RunState, WorldState};
use harvest_captain::level_generator::swap_step;
use harvest_captain::logger::Logs;
use harvest_captain::map::{GameMap, MapIndexingSystem};
use harvest_captain::store::{EntityRecord, Store};
use harvest_captain::tree_growth::grow_on_draw;

#[test]
fn trees_grow_only_on_a_low_draw() {
    let tree = configure_tree(1, 1);
    assert_eq!(grow_on_draw(tree, 19).health.unwrap().maximum, 2);
    assert_eq!(grow_on_draw(tree, 19).health.unwrap().amount, 1);
    assert_eq!(grow_on_draw(tree, 20).health.unwrap().maximum, 1);
    let house = configure_house(1, 1);
    assert_eq!(grow_on_draw(house, 0).health.unwrap().maximum, 2);
}

#[test]
fn swap_step_exchanges_two_items() {
    let mut v = vec![1, 2, 3];
    swap_step(&mut v, 0, 2);
    assert_eq!(v, vec![3, 2, 1]);
    swap_step(&mut v, 1, 1);
    assert_eq!(v, vec![3, 2, 1]);
}

#[test]
fn index_keeps_the_later_entity_and_skips_glyphless_ones() {
    let mut store = Store::new();
    store.create(configure_farm(2, 2));
    store.create(configure_house(2, 2));
    let mut bare = EntityRecord::empty();
    bare.position = Some(Position::new(3, 3));
    store.create(bare);
    store.create(configure_farm(0, 0));
    let mut map = GameMap::new(5, 5);
    MapIndexingSystem.run(&mut map, &store);
    assert_eq!(map.get_entity(2, 2), Some(1));
    assert_eq!(map.get_entity(3, 3), None);
    assert_eq!(map.get_entity(0, 0), Some(3));
    assert_eq!(map.farms(), 2);
    assert_eq!(map.houses(), 1);
    assert_eq!(map.get_entity(7, 0), None);
}

#[test]
fn every_attacker_strikes_and_glyphs_decide_the_log() {
    let mut store = Store::new();
    let target = store.create(configure_house(1, 1));
    let mut a = EntityRecord::empty();
    a.attacking = Some(Attacking::new(target));
    store.create(a);
    let mut b = configure_goblin(2, 1);
    b.attacking = Some(Attacking::new(target));
    store.create(b);
    let mut logs = Logs::new();
    ApplyAttackSystem.run(&mut store, &mut logs);
    assert_eq!(store.get(target).unwrap().health.unwrap().amount, 0);
    assert!(store.get(1).unwrap().attacking.is_none());
    assert!(store.get(2).unwrap().attacking.is_none());
    let entries = logs.flush();
    assert_eq!(entries.len(), 1);
}

#[test]
fn a_monster_with_the_town_marker_is_attacked_not_refused() {
    let mut odd = configure_goblin(5, 4);
    odd.town = true;
    let mut w = WorldState::from_entities(12, 12, vec![configure_player(5, 5, 5), odd, configure_house(0, 0)], RandomNumberGenerator::seeded(3)).unwrap();
    w.tick();
    assert_eq!(w.player_move(Moving::Up), Ok(()));
    assert_eq!(w.run_state(), RunState::PlayerTurn);
}

#[test]
fn waiting_for_input_tick_changes_nothing() {
    let mut w = WorldState::from_entities(12, 12, vec![configure_player(5, 5, 5), configure_goblin(9, 9), configure_house(0, 0)], RandomNumberGenerator::seeded(3)).unwrap();
    w.tick();
    let before = w.to_render();
    for _ in 0..5 {
        w.tick();
    }
    assert_eq!(w.run_state(), RunState::AwaitingInput);
    let after = w.to_render();
    assert_eq!(before.len(), after.len());
    for (x, y) in before.iter().zip(after.iter()) {
        assert_eq!((x.x, x.y, x.hp), (y.x, y.y, y.hp));
    }
}

#[test]
fn new_game_holds_the_level_and_four_goblins() {
    for seed in 0..5u64 {
        let w = WorldState::with_rng(RandomNumberGenerator::seeded(seed));
        assert!(w.entity(26).is_some());
        assert!(w.entity(27).is_none());
        for e in 23..27 {
            assert!(w.entity(e).unwrap().monster);
        }
    }
}
