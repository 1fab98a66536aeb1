//! The component sets of each kind of entity.
use vstd::prelude::*;
use crate::components::{AI, Glyph, Health, Position, Renderable};
use crate::store::EntityRecord;

verus! {

/// An entity with a position, a glyph and full health, and no marker or intent yet.
pub open spec fn body(x: i32, y: i32, glyph: Glyph, hp: u8) -> EntityRecord {
    EntityRecord {
        position: Some(Position { x, y }),
        renderable: Some(Renderable { glyph }),
        health: Some(Health { amount: hp, maximum: hp }),
        ai: None,
        player: false,
        monster: false,
        town: false,
        moving: None,
        attacking: None,
        defeated: false,
    }
}

/// A monster with the given look, health and policy.
pub open spec fn monster(x: i32, y: i32, glyph: Glyph, hp: u8, ai: AI) -> EntityRecord {
    EntityRecord { ai: Some(ai), monster: true, ..body(x, y, glyph, hp) }
}

/// A building of the player's town.
pub open spec fn building(x: i32, y: i32, glyph: Glyph, hp: u8) -> EntityRecord {
    EntityRecord { town: true, ..body(x, y, glyph, hp) }
}

fn make_body(x: i32, y: i32, glyph: Glyph, hp: u8) -> (r: EntityRecord)
    requires
        hp >= 1,
    ensures
        r == body(x, y, glyph, hp),
{
    let mut r = EntityRecord::empty();
    r.position = Some(Position::new(x, y));
    r.renderable = Some(Renderable::new(glyph));
    r.health = Some(Health::new(hp));
    r
}

/// A rat: one health point, wanders.
pub fn configure_rat(x: i32, y: i32) -> (r: EntityRecord)
    ensures
        r == monster(x, y, Glyph::Rat, 1, AI::Wander),
{
    let mut r = make_body(x, y, Glyph::Rat, 1);
    r.ai = Some(AI::Wander);
    r.monster = true;
    r
}

/// A goblin: one health point, goes for the town.
pub fn configure_goblin(x: i32, y: i32) -> (r: EntityRecord)
    ensures
        r == monster(x, y, Glyph::Goblin, 1, AI::PrioritizeTown),
{
    let mut r = make_body(x, y, Glyph::Goblin, 1);
    r.ai = Some(AI::PrioritizeTown);
    r.monster = true;
    r
}

/// An orc: two health points, hunts the player.
pub fn configure_orc(x: i32, y: i32) -> (r: EntityRecord)
    ensures
        r == monster(x, y, Glyph::Orc, 2, AI::PrioritizePlayer),
{
    let mut r = make_body(x, y, Glyph::Orc, 2);
    r.ai = Some(AI::PrioritizePlayer);
    r.monster = true;
    r
}

/// A farm: one health point.
pub fn configure_farm(x: i32, y: i32) -> (r: EntityRecord)
    ensures
        r == building(x, y, Glyph::Farm, 1),
{
    let mut r = make_body(x, y, Glyph::Farm, 1);
    r.town = true;
    r
}

/// A wall: three health points.
pub fn configure_wall(x: i32, y: i32) -> (r: EntityRecord)
    ensures
        r == building(x, y, Glyph::Wall, 3),
{
    let mut r = make_body(x, y, Glyph::Wall, 3);
    r.town = true;
    r
}

/// A house: two health points.
pub fn configure_house(x: i32, y: i32) -> (r: EntityRecord)
    ensures
        r == building(x, y, Glyph::House, 2),
{
    let mut r = make_body(x, y, Glyph::House, 2);
    r.town = true;
    r
}

/// The player, with the given health.
pub fn configure_player(x: i32, y: i32, hp: u8) -> (r: EntityRecord)
    requires
        hp >= 1,
    ensures
        r == (EntityRecord { player: true, ..body(x, y, Glyph::Player, hp) }),
{
    let mut r = make_body(x, y, Glyph::Player, hp);
    r.player = true;
    r
}

/// A tree: one health point, no marker.
pub fn configure_tree(x: i32, y: i32) -> (r: EntityRecord)
    ensures
        r == body(x, y, Glyph::Tree, 1),
{
    make_body(x, y, Glyph::Tree, 1)
}

} // verus!
