use harvest_captain::ai::best_direction;
use harvest_captain::components::{Attacking, Glyph, Health, HealthState, Moving, Position, Renderable};
use harvest_captain::logger::{LogMessage, Logs};
use harvest_captain::store::{EntityRecord, Store};

#[test]
fn health_reduce_saturates_and_reports_defeat() {
    let mut h = Health::new(2);
    assert_eq!(h.reduce(1), HealthState::Alive);
    assert_eq!(h.amount(), 1);
    assert_eq!(h.reduce(5), HealthState::Defeated);
    assert_eq!(h.amount(), 0);
    assert_eq!(h.maximum(), 2);
}

#[test]
fn health_increase_and_reset() {
    let mut h = Health::new(1);
    h.increase(1);
    assert_eq!((h.amount(), h.maximum()), (1, 2));
    h.reset();
    assert_eq!((h.amount(), h.maximum()), (2, 2));
    let mut top = Health::new(255);
    top.increase(3);
    assert_eq!(top.maximum(), 255);
}

#[test]
fn position_steps_and_distance() {
    let p = Position::new(5, 5);
    assert_eq!(p.after(&Moving::Up), Some(Position::new(5, 4)));
    assert_eq!(p.after(&Moving::Down), Some(Position::new(5, 6)));
    assert_eq!(p.after(&Moving::Left), Some(Position::new(4, 5)));
    assert_eq!(p.after(&Moving::Right), Some(Position::new(6, 5)));
    assert_eq!(Position::new(i32::MAX, 0).after(&Moving::Right), None);
    assert_eq!(p.distance2(&Position::new(8, 9)), 25);
}

#[test]
fn best_direction_follows_the_larger_offset() {
    let from = Position::new(5, 5);
    assert_eq!(best_direction(&from, &Position::new(9, 6)), Moving::Right);
    assert_eq!(best_direction(&from, &Position::new(1, 6)), Moving::Left);
    assert_eq!(best_direction(&from, &Position::new(6, 9)), Moving::Down);
    assert_eq!(best_direction(&from, &Position::new(6, 1)), Moving::Up);
    assert_eq!(best_direction(&from, &Position::new(7, 7)), Moving::Down);
    assert_eq!(best_direction(&from, &Position::new(5, 5)), Moving::Up);
}

#[test]
fn renderable_and_attacking_keep_their_values() {
    assert_eq!(Renderable::new(Glyph::Orc).glyph(), Glyph::Orc);
    assert_eq!(Attacking::new(7).target(), 7);
}

#[test]
fn store_create_set_destroy() {
    let mut store = Store::new();
    let mut rec = EntityRecord::empty();
    rec.position = Some(Position::new(1, 1));
    let a = store.create(rec);
    let b = store.create(EntityRecord::empty());
    assert_eq!((a, b), (0, 1));
    let mut changed = store.get(a).unwrap();
    changed.monster = true;
    store.set(a, changed);
    assert!(store.get(a).unwrap().monster);
    store.destroy(a);
    assert!(store.get(a).is_none());
    // A destroyed id stays dead.
    store.set(a, changed);
    assert!(store.get(a).is_none());
    assert!(store.get(b).is_some());
    assert!(store.get(9).is_none());
    assert_eq!(store.len(), 2);
}

#[test]
fn logs_flush_drains_the_buffer() {
    let mut logs = Logs::new();
    logs.add(LogMessage::Attacked { attacker: Glyph::Player, target: Glyph::Goblin, position: (1, 2), defeated: true });
    let first = logs.flush();
    assert_eq!(first.len(), 1);
    assert!(logs.flush().is_empty());
}
