use bracket_lib::random::RandomNumberGenerator;
use harvest_captain::components::{Glyph, Moving, Position};
use harvest_captain::demo::{configure_farm, configure_goblin, configure_house, configure_orc, configure_player, configure_wall};
use harvest_captain::game::{GameState, MovementDenied, RunState, WorldState};
use harvest_captain::store::EntityRecord;

fn board(entities: Vec<EntityRecord>) -> WorldState {
    WorldState::from_entities(12, 12, entities, RandomNumberGenerator::seeded(42)).unwrap()
}

fn positions_distinct(w: &WorldState, n: usize) -> bool {
    let mut seen: Vec<(i32, i32)> = Vec::new();
    for e in 0..n {
        if let Some(rec) = w.entity(e) {
            if let Some(p) = rec.position {
                if seen.contains(&(p.x, p.y)) {
                    return false;
                }
                seen.push((p.x, p.y));
            }
        }
    }
    true
}

#[test]
fn new_game_starts_before_the_first_turn() {
    let mut w = WorldState::with_rng(RandomNumberGenerator::seeded(1));
    assert_eq!(w.run_state(), RunState::PreRun);
    let player = w.entity(w.player_entity()).unwrap();
    assert!(player.player);
    assert_eq!(player.health.unwrap().amount, 5);
    let stats = w.get_stats();
    assert_eq!(stats.round, 1);
    assert_eq!(stats.money, 0);
    assert_eq!(stats.health, (5, 5));
    // The first wave holds round + 3 goblins.
    let drawn = w.to_render();
    assert_eq!(drawn.iter().filter(|d| d.glyph == Glyph::Goblin).count(), 4);
    assert_eq!(drawn.iter().filter(|d| d.glyph == Glyph::House).count(), 2);
    w.tick();
    assert_eq!(w.run_state(), RunState::AwaitingInput);
    assert_eq!(w.get_stats().houses, 2);
    assert_eq!(w.get_stats().farms, 2);
    assert_eq!(w.get_stats().state, GameState::DefendingTheRealm);
}

#[test]
fn player_attacks_monster_which_is_removed_a_tick_later() {
    let mut w = board(vec![
        configure_player(5, 5, 5),
        configure_goblin(6, 5),
        configure_house(0, 0),
    ]);
    w.tick();
    assert_eq!(w.run_state(), RunState::AwaitingInput);
    assert_eq!(w.player_move(Moving::Right), Ok(()));
    w.tick();
    let goblin = w.entity(1).unwrap();
    assert!(goblin.defeated);
    assert!(goblin.health.is_none());
    let player = w.entity(0).unwrap();
    assert_eq!(player.position, Some(Position::new(5, 5)));
    assert_eq!(player.health.unwrap().amount, 5);
    let logs = w.get_logs();
    assert_eq!(logs.len(), 1);
    assert!(w.get_logs().is_empty());
    assert_eq!(w.run_state(), RunState::MonsterTurn);
    w.tick();
    assert!(w.entity(1).is_none());
    assert_eq!(w.entity(0).unwrap().position, Some(Position::new(5, 5)));
}

#[test]
fn clearing_the_last_monster_ends_the_round() {
    let mut w = board(vec![
        configure_player(5, 5, 5),
        configure_goblin(6, 5),
        configure_house(0, 0),
        configure_farm(0, 1),
        configure_farm(1, 0),
    ]);
    w.tick();
    assert_eq!(w.player_move(Moving::Right), Ok(()));
    w.tick();
    assert_eq!(w.get_stats().money, 0);
    w.tick();
    assert_eq!(w.run_state(), RunState::BuildingTurn);
    let stats = w.get_stats();
    assert_eq!(stats.round, 2);
    assert_eq!(stats.money, 2);
    assert_eq!(stats.state, GameState::WaitingForBuild);
    // A new house, id 5, and nothing else.
    let house = w.entity(5).unwrap();
    assert_eq!(house.renderable.unwrap().glyph, Glyph::House);
    assert!(w.entity(6).is_none());
    for e in 0..6 {
        if let Some(rec) = w.entity(e) {
            if let Some(h) = rec.health {
                assert_eq!(h.amount, h.maximum);
            }
        }
    }
    assert!(positions_distinct(&w, 6));
}

#[test]
fn health_is_restored_at_the_end_of_a_round() {
    let mut hurt = configure_player(5, 5, 5);
    hurt.health.as_mut().unwrap().reduce(3);
    let mut w = board(vec![hurt, configure_goblin(6, 5), configure_house(0, 0)]);
    w.tick();
    assert_eq!(w.get_stats().health, (2, 5));
    w.player_move(Moving::Right).unwrap();
    w.tick();
    w.tick();
    assert_eq!(w.get_stats().health, (5, 5));
}

#[test]
fn monster_next_to_the_player_attacks_it() {
    let mut w = board(vec![
        configure_player(5, 5, 5),
        configure_orc(5, 7),
        configure_house(0, 0),
    ]);
    w.tick();
    w.player_move(Moving::Left).unwrap();
    w.tick();
    assert_eq!(w.run_state(), RunState::MonsterTurn);
    w.tick();
    // The orc steps along the larger offset, upwards.
    assert_eq!(w.entity(1).unwrap().position, Some(Position::new(5, 6)));
    assert_eq!(w.run_state(), RunState::AwaitingInput);
    w.player_move(Moving::Right).unwrap();
    w.tick();
    assert_eq!(w.entity(0).unwrap().position, Some(Position::new(5, 5)));
    w.tick();
    // Next to the player, the orc strikes instead of moving.
    assert_eq!(w.entity(1).unwrap().position, Some(Position::new(5, 6)));
    assert_eq!(w.get_stats().health, (4, 5));
}

#[test]
fn player_move_outside_its_turn_is_refused() {
    let mut w = board(vec![configure_player(5, 5, 5), configure_house(0, 0)]);
    assert_eq!(w.player_move(Moving::Up), Err(MovementDenied::NotPlayerTurn));
}

#[test]
fn player_move_off_the_board_is_impassable() {
    let mut w = board(vec![configure_player(0, 5, 5), configure_house(3, 3), configure_goblin(11, 11)]);
    w.tick();
    assert_eq!(w.player_move(Moving::Left), Err(MovementDenied::Impassable));
    assert_eq!(w.run_state(), RunState::AwaitingInput);
}

#[test]
fn player_move_into_own_building_is_friendly() {
    let mut w = board(vec![configure_player(5, 5, 5), configure_wall(5, 4), configure_house(0, 0), configure_goblin(11, 11)]);
    w.tick();
    assert_eq!(w.player_move(Moving::Up), Err(MovementDenied::Friendly));
    assert_eq!(w.player_move(Moving::Down), Ok(()));
}

#[test]
fn player_move_without_houses_is_game_over() {
    let mut w = board(vec![configure_player(5, 5, 5), configure_goblin(11, 11)]);
    w.tick();
    assert_eq!(w.player_move(Moving::Up), Err(MovementDenied::GameOver));
    assert_eq!(w.get_stats().state, GameState::GameOver);
}

#[test]
fn building_costs_money_and_needs_a_free_cell() {
    let mut w = board(vec![
        configure_player(5, 5, 5),
        configure_goblin(6, 5),
        configure_house(0, 0),
        configure_farm(0, 1),
        configure_farm(1, 0),
    ]);
    assert!(!w.player_build((3, 3), Glyph::Wall));
    w.tick();
    w.player_move(Moving::Right).unwrap();
    w.tick();
    w.tick();
    assert_eq!(w.get_stats().money, 2);
    assert!(!w.player_build((5, 5), Glyph::Wall));
    assert!(!w.player_build((12, 3), Glyph::Wall));
    assert!(!w.player_build((3, 3), Glyph::House));
    assert!(w.player_build((3, 3), Glyph::Wall));
    assert_eq!(w.get_stats().money, 1);
    assert!(!w.player_build((4, 3), Glyph::Farm));
    assert!(w.player_build((4, 3), Glyph::Wall));
    assert_eq!(w.get_stats().money, 0);
    assert!(!w.player_build((4, 4), Glyph::Wall));
}

#[test]
fn ready_brings_the_next_wave() {
    let mut w = board(vec![
        configure_player(5, 5, 5),
        configure_goblin(6, 5),
        configure_house(0, 0),
    ]);
    w.player_ready();
    assert_eq!(w.run_state(), RunState::PreRun);
    w.tick();
    w.player_move(Moving::Right).unwrap();
    w.tick();
    w.tick();
    assert_eq!(w.run_state(), RunState::BuildingTurn);
    w.tick();
    assert_eq!(w.run_state(), RunState::BuildingTurn);
    let before = w.to_render().len();
    w.player_ready();
    assert_eq!(w.run_state(), RunState::PreRun);
    let drawn = w.to_render();
    // Round 2: five goblins, no orcs yet.
    assert_eq!(drawn.len(), before + 5);
    assert_eq!(drawn.iter().filter(|d| d.glyph == Glyph::Goblin).count(), 5);
    assert!(positions_distinct(&w, 20));
}

#[test]
fn prepared_boards_are_checked() {
    let rng = || RandomNumberGenerator::seeded(0);
    assert!(WorldState::from_entities(12, 12, vec![configure_house(0, 0)], rng()).is_none());
    assert!(WorldState::from_entities(12, 12, vec![configure_player(1, 1, 5), configure_house(1, 1)], rng()).is_none());
    assert!(WorldState::from_entities(12, 12, vec![configure_player(12, 1, 5)], rng()).is_none());
    assert!(WorldState::from_entities(0, 12, vec![configure_player(0, 0, 5)], rng()).is_none());
    let mut moving = configure_player(1, 1, 5);
    moving.moving = Some(Moving::Up);
    assert!(WorldState::from_entities(12, 12, vec![moving], rng()).is_none());
    assert!(WorldState::from_entities(12, 12, vec![configure_player(1, 1, 5)], rng()).is_some());
}

#[test]
fn ticks_keep_cells_single_and_intents_cleared() {
    let mut w = WorldState::with_rng(RandomNumberGenerator::seeded(77));
    let dirs = [Moving::Up, Moving::Left, Moving::Down, Moving::Right];
    for step in 0..60 {
        if w.run_state() == RunState::AwaitingInput {
            let _ = w.player_move(dirs[step % 4]);
        }
        if w.run_state() == RunState::BuildingTurn {
            w.player_ready();
        }
        let round_before = w.get_stats().round;
        let state_before = w.run_state();
        w.tick();
        let stats = w.get_stats();
        assert!(stats.round == round_before || (state_before == RunState::MonsterTurn && stats.round == round_before + 1));
        assert!(positions_distinct(&w, 200));
        for e in 0..200 {
            if let Some(rec) = w.entity(e) {
                assert!(rec.moving.is_none());
                assert!(rec.attacking.is_none());
                if let Some(h) = rec.health {
                    assert!(h.amount >= 1);
                }
            }
        }
    }
}
