//! The turn controller: the world, its state machine and the commands it accepts.
use vstd::prelude::*;
use vstd::seq_lib::group_to_multiset_ensures;
use vstd::relations::injective_on;
use vstd::set_lib::{lemma_int_range, lemma_len_subset, lemma_map_size, set_int_range};
use bracket_lib::random::RandomNumberGenerator;
use crate::rng::entropy_rng;
use crate::ai::{AISystem, ai_stage};
use crate::combat::{ApplyAttackSystem, ConvertMovementToMeleeAttackSystem, DefeatSystem, RemoveDefeatedSystem, after_blows, blows, converted, defeat};
use crate::components::{AI, EntityId, Glyph, Health, Moving, Position, step};
use crate::demo::{building, configure_farm, configure_goblin, configure_house, configure_orc, configure_wall, monster};
use crate::level_generator::{Grid, LevelGenerator, LevelInsert, LevelItem, count_inserts, at, fill_level, grid_wf, inserted, lemma_count_inserts_witness, open_cell};
use crate::map::saturate;
use crate::tree_growth::{TreeGrowthSystem, grown, growing_tree};
use crate::logger::{LogMessage, Logs};
use crate::map::{GameMap, MapIndexingSystem, indexed, indexes, last_at, lemma_indexed_positions_distinct, lemma_last_at_sound, lemma_last_at_unique, pos_of, positions_distinct};
use crate::movement::{MovementSystem, moved_ok, moves_exactly};
use crate::store::{EntityRecord, Store};

verus! {

/// Possible states that the game can be in and executing.
#[derive(Clone, Copy, Debug, PartialEq, Eq, Structural)]
pub enum RunState {
    PreRun,
    AwaitingInput,
    PlayerTurn,
    MonsterTurn,
    BuildingTurn,
}

/// Possible states of the game, as reported to the player.
#[derive(Clone, Copy, Debug, PartialEq, Eq, Structural)]
pub enum GameState {
    /// The player has been defeated.
    GameOver,
    /// The player is actively playing the game.
    DefendingTheRealm,
    /// The player can now build structures.
    WaitingForBuild,
}

/// Why a player cannot move in a given direction.
#[derive(Clone, Copy, Debug, PartialEq, Eq, Structural)]
pub enum MovementDenied {
    /// The player is not allowed to move at this time.
    NotPlayerTurn,
    /// The player has been defeated and/or all houses have been destroyed.
    GameOver,
    /// The destination is off the board.
    Impassable,
    /// The destination holds one of the player's own buildings.
    Friendly,
}

/// An entity as it is drawn.
#[derive(Clone, Copy, Debug)]
pub struct DrawEntity {
    pub x: i32,
    pub y: i32,
    pub glyph: Glyph,
    pub hp: (u8, u8),
}

/// Statistics used to draw the player's UI.
#[derive(Clone, Copy, Debug)]
pub struct GameStats {
    /// Round number, starting at 1.
    pub round: u8,
    /// Current and maximum health of the player.
    pub health: (u8, u8),
    /// Amount of $ for the player.
    pub money: u8,
    /// Farms remaining.
    pub farms: u8,
    /// Houses remaining.
    pub houses: u8,
    /// State of the game.
    pub state: GameState,
}

} // verus!

verus! {

/// Entity `e` is alive.
pub open spec fn live(s: Seq<Option<EntityRecord>>, e: int) -> bool {
    0 <= e < s.len() && s[e].is_some()
}

/// No entity attacks.
pub open spec fn no_attacks(s: Seq<Option<EntityRecord>>) -> bool {
    forall|e: int| #[trigger] live(s, e) ==> s[e].unwrap().attacking.is_none()
}

/// No entity intends to move.
pub open spec fn no_moves(s: Seq<Option<EntityRecord>>) -> bool {
    forall|e: int| #[trigger] live(s, e) ==> s[e].unwrap().moving.is_none()
}

/// Every health is well formed and above zero.
pub open spec fn healthy(s: Seq<Option<EntityRecord>>) -> bool {
    forall|e: int| #[trigger] live(s, e) && s[e].unwrap().health.is_some()
        ==> s[e].unwrap().health.unwrap().wf() && s[e].unwrap().health.unwrap().amount >= 1
}

/// Every entity with a position has a glyph.
pub open spec fn positioned_drawn(s: Seq<Option<EntityRecord>>) -> bool {
    forall|e: int| #[trigger] pos_of(s, e).is_some() ==> s[e].unwrap().renderable.is_some()
}

/// A new drawn entity keeps every positioned entity drawn.
proof fn lemma_push_drawn(s: Seq<Option<EntityRecord>>, rec: EntityRecord)
    requires
        positioned_drawn(s),
        rec.renderable.is_some(),
    ensures
        positioned_drawn(s.push(Some(rec))),
{
    let t = s.push(Some(rec));
    assert forall|e: int| #[trigger] pos_of(t, e).is_some() implies t[e].unwrap().renderable.is_some() by {
        if e < s.len() {
            assert(pos_of(s, e) == pos_of(t, e));
        }
    }
}

/// Fewer than 144 entities cannot fill an indexed 12 by 12 board.
proof fn lemma_small_world_has_room(map: GameMap, s: Seq<Option<EntityRecord>>)
    requires
        map.spec_width() == 12,
        map.spec_height() == 12,
        indexes(map, s),
        s.len() < 144,
    ensures
        free_cell(map),
{
    if !free_cell(map) {
        let a = set_int_range(0, 144);
        let f = |i: int| map.cell(i % 12, i / 12).unwrap() as int;
        lemma_int_range(0, 144);
        lemma_int_range(0, s.len() as int);
        assert forall|i: int| #[trigger] a.contains(i) implies map.cell(i % 12, i / 12).is_some()
            && 0 <= f(i) < s.len()
            && pos_of(s, f(i)) == Some(Position { x: (i % 12) as i32, y: (i / 12) as i32 }) by {
            assert(map.in_map(i % 12, i / 12));
        }
        assert(injective_on(f, a)) by {
            assert forall|i: int, j: int| a.contains(i) && a.contains(j) && #[trigger] f(i) == #[trigger] f(j) implies i == j by {
                assert(i % 12 == j % 12 && i / 12 == j / 12);
                assert(i == 12 * (i / 12) + i % 12);
                assert(j == 12 * (j / 12) + j % 12);
            }
        }
        let b = a.map(f);
        lemma_map_size(a, b, f);
        assert(b.subset_of(set_int_range(0, s.len() as int))) by {
            assert forall|v: int| #[trigger] b.contains(v) implies set_int_range(0, s.len() as int).contains(v) by {
                let i = choose|i: int| a.contains(i) && f(i) == v;
            }
        }
        lemma_len_subset(b, set_int_range(0, s.len() as int));
    }
}

/// A rebuilt index over entities on distinct cells, all drawn, is exact.
proof fn lemma_rebuilt_indexes(map: GameMap, s: Seq<Option<EntityRecord>>)
    requires
        positions_distinct(s),
        positioned_drawn(s),
        s.len() <= usize::MAX,
        forall|e: int| #[trigger] pos_of(s, e).is_some() ==> map.in_map(pos_of(s, e).unwrap().x as int, pos_of(s, e).unwrap().y as int),
        forall|x: int, y: int| map.in_map(x, y) ==> #[trigger] map.cell(x, y) == last_at(s, x, y, s.len() as int),
    ensures
        indexes(map, s),
{
    assert forall|e: int| #[trigger] pos_of(s, e).is_some() implies map.in_map(pos_of(s, e).unwrap().x as int, pos_of(s, e).unwrap().y as int)
        && map.cell(pos_of(s, e).unwrap().x as int, pos_of(s, e).unwrap().y as int) == Some(e as usize) by {
        let p = pos_of(s, e).unwrap();
        map.lemma_dims_open();
        assert(indexed(s, e));
        lemma_last_at_unique(s, p.x as int, p.y as int, s.len() as int, e);
    }
    assert forall|x: int, y: int| map.in_map(x, y) && #[trigger] map.cell(x, y).is_some()
        implies pos_of(s, map.cell(x, y).unwrap() as int) == Some(Position { x: x as i32, y: y as i32 }) by {
        lemma_last_at_sound(s, x, y, s.len() as int);
    }
}

/// Whether a monster is alive.
pub open spec fn monsters_left(s: Seq<Option<EntityRecord>>) -> bool {
    exists|e: int| #[trigger] live(s, e) && s[e].unwrap().monster
}

/// Entities with the same positions are indexed by the same map.
proof fn lemma_same_positions(map: GameMap, s1: Seq<Option<EntityRecord>>, s2: Seq<Option<EntityRecord>>)
    requires
        indexes(map, s1),
        forall|e: int| #[trigger] pos_of(s2, e) == pos_of(s1, e),
    ensures
        indexes(map, s2),
{
    assert forall|e: int| #[trigger] pos_of(s2, e).is_some() implies map.in_map(pos_of(s2, e).unwrap().x as int, pos_of(s2, e).unwrap().y as int)
        && map.cell(pos_of(s2, e).unwrap().x as int, pos_of(s2, e).unwrap().y as int) == Some(e as usize) by {
        assert(pos_of(s1, e).is_some());
    }
    assert forall|x: int, y: int| map.in_map(x, y) && #[trigger] map.cell(x, y).is_some()
        implies pos_of(s2, map.cell(x, y).unwrap() as int) == Some(Position { x: x as i32, y: y as i32 }) by {
        assert(pos_of(s2, map.cell(x, y).unwrap() as int) == pos_of(s1, map.cell(x, y).unwrap() as int));
    }
}

/// Creates `rec` on the free cell `(x, y)` and records it there.
fn place(store: &mut Store, map: &mut GameMap, rec: EntityRecord, x: i32, y: i32) -> (r: EntityId)
    requires
        old(store).wf(),
        old(map).wf(),
        indexes(*old(map), old(store)@),
        old(map).in_map(x as int, y as int),
        old(map).cell(x as int, y as int).is_none(),
        rec.position == Some(Position { x, y }),
        old(store)@.len() < usize::MAX,
    ensures
        final(store).wf(),
        final(map).wf(),
        indexes(*final(map), final(store)@),
        final(store)@ == old(store)@.push(Some(rec)),
        r == old(store)@.len(),
        final(map).spec_width() == old(map).spec_width(),
        final(map).spec_height() == old(map).spec_height(),
        final(map).spec_round() == old(map).spec_round(),
        final(map).spec_money() == old(map).spec_money(),
        final(map).spec_farms() == old(map).spec_farms(),
        final(map).spec_houses() == old(map).spec_houses(),
        final(map).cell(x as int, y as int) == Some(r),
        forall|x2: int, y2: int| final(map).in_map(x2, y2) && (x2, y2) != (x as int, y as int)
            ==> #[trigger] final(map).cell(x2, y2) == old(map).cell(x2, y2),
{
    let ghost s0 = store@;
    let ghost m0 = *map;
    let id = store.create(rec);
    map.set_entity(x, y, id);
    proof {
        assert(pos_of(store@, id as int) == Some(Position { x, y }));
        assert forall|e: int| #[trigger] pos_of(store@, e).is_some() implies map.in_map(pos_of(store@, e).unwrap().x as int, pos_of(store@, e).unwrap().y as int)
            && map.cell(pos_of(store@, e).unwrap().x as int, pos_of(store@, e).unwrap().y as int) == Some(e as usize) by {
            if e != id as int {
                assert(pos_of(store@, e) == pos_of(s0, e));
                let p = pos_of(s0, e).unwrap();
                assert(m0.cell(p.x as int, p.y as int) == Some(e as usize));
            }
        }
        assert forall|x2: int, y2: int| map.in_map(x2, y2) && #[trigger] map.cell(x2, y2).is_some()
            implies pos_of(store@, map.cell(x2, y2).unwrap() as int) == Some(Position { x: x2 as i32, y: y2 as i32 }) by {
            if (x2, y2) != (x as int, y as int) {
                assert(m0.cell(x2, y2).is_some());
                let c = m0.cell(x2, y2).unwrap();
                assert(pos_of(s0, c as int).is_some());
                assert(pos_of(store@, c as int) == pos_of(s0, c as int));
            }
        }
    }
    id
}

/// Whether some monster is alive.
fn any_monster(store: &Store) -> (r: bool)
    requires
        store.wf(),
    ensures
        r == monsters_left(store@),
{
    let n = store.len();
    let mut e: usize = 0;
    while e < n
        invariant
            store.wf(),
            n == store@.len(),
            e <= n,
            forall|k: int| 0 <= k < e ==> !(#[trigger] live(store@, k) && store@[k].unwrap().monster),
        decreases n - e,
    {
        if let Some(rec) = store.get(e) {
            if rec.monster {
                proof {
                    assert(live(store@, e as int) && store@[e as int].unwrap().monster);
                }
                return true;
            }
        }
        e = e + 1;
    }
    false
}

/// Some cell of the board is free.
pub open spec fn free_cell(map: GameMap) -> bool {
    exists|x: int, y: int| map.in_map(x, y) && #[trigger] map.cell(x, y).is_none()
}

/// Every health is at its maximum.
pub open spec fn all_restored(s: Seq<Option<EntityRecord>>) -> bool {
    forall|e: int| #[trigger] live(s, e) && s[e].unwrap().health.is_some()
        ==> s[e].unwrap().health.unwrap().amount == s[e].unwrap().health.unwrap().maximum
}

/// The record with its health restored to the maximum.
pub open spec fn restored(r: EntityRecord) -> EntityRecord {
    match r.health {
        Some(h) => EntityRecord { health: Some(Health { amount: h.maximum, maximum: h.maximum }), ..r },
        None => r,
    }
}

/// Restores every health to its maximum.
fn reset_health(store: &mut Store)
    requires
        old(store).wf(),
    ensures
        final(store).wf(),
        final(store)@.len() == old(store)@.len(),
        forall|e: int| 0 <= e < old(store)@.len() ==> #[trigger] final(store)@[e] == match old(store)@[e] {
            Some(r) => Some(restored(r)),
            None => None,
        },
{
    let ghost s0 = store@;
    let n = store.len();
    let mut e: usize = 0;
    while e < n
        invariant
            store.wf(),
            n == s0.len(),
            store@.len() == n,
            e <= n,
            forall|k: int| 0 <= k < e ==> #[trigger] store@[k] == match s0[k] {
                Some(r) => Some(restored(r)),
                None => None,
            },
            forall|k: int| e <= k < n ==> #[trigger] store@[k] == s0[k],
        decreases n - e,
    {
        if let Some(rec) = store.get(e) {
            if let Some(h0) = rec.health {
                let mut h = h0;
                h.reset();
                let mut r2 = rec;
                r2.health = Some(h);
                store.set(e, r2);
            }
        }
        e = e + 1;
    }
}

/// A world without pending intents, indexed, and with every health above zero.
pub open spec fn settled(store: Store, map: GameMap) -> bool {
    &&& positioned_drawn(store@)
    &&& store.wf()
    &&& map.wf()
    &&& indexes(map, store@)
    &&& no_attacks(store@)
    &&& no_moves(store@)
    &&& healthy(store@)
}


/// Whether `ps` holds `p`.
fn holds(ps: &Vec<(i32, i32)>, p: (i32, i32)) -> (r: bool)
    ensures
        r == ps@.contains(p),
{
    let mut i: usize = 0;
    while i < ps.len()
        invariant
            i <= ps@.len(),
            forall|k: int| 0 <= k < i ==> ps@[k] != p,
        decreases ps@.len() - i,
    {
        if ps[i].0 == p.0 && ps[i].1 == p.1 {
            return true;
        }
        i = i + 1;
    }
    false
}

/// A monster that a wave may hold: an orc or a goblin somewhere on the board.
pub open spec fn wave_monster(r: EntityRecord, orc: bool) -> bool {
    exists|x: i32, y: i32| r == if orc { monster(x, y, Glyph::Orc, 2, AI::PrioritizePlayer) } else {
        monster(x, y, Glyph::Goblin, 1, AI::PrioritizeTown)
    }
}

/// `s` holds cell `(x, y)`.
pub open spec fn has_cell(s: Seq<(i32, i32)>, x: int, y: int) -> bool {
    s.contains((x as i32, y as i32))
}

/// The four sides of ring `fe` hold every cell at depth `fe`.
proof fn lemma_ring_covered(ring: Seq<(i32, i32)>, fe: int, w: int, h: int, x2: int, y2: int)
    requires
        0 <= fe,
        fe < w - fe,
        fe < h - fe,
        forall|x: int| fe <= x < w - fe ==> #[trigger] has_cell(ring, x, fe) && has_cell(ring, x, h - fe - 1),
        forall|y: int| fe <= y < h - fe ==> #[trigger] has_cell(ring, fe, y) && has_cell(ring, w - fe - 1, y),
        0 <= x2 < w,
        0 <= y2 < h,
        ring_of(x2, y2, w, h) == fe,
    ensures
        has_cell(ring, x2, y2),
{
    if x2 == fe {
        assert(has_cell(ring, fe, y2));
    } else if y2 == fe {
        assert(has_cell(ring, x2, fe));
    } else if x2 == w - 1 - fe {
        assert(has_cell(ring, fe, y2));
    } else {
        assert(has_cell(ring, x2, fe));
    }
}

/// How deep cell `(x, y)` lies: its distance to the nearest edge of a `w` by `h` board.
pub open spec fn ring_of(x: int, y: int, w: int, h: int) -> int {
    let a = if x < w - 1 - x { x } else { w - 1 - x };
    let b = if y < h - 1 - y { y } else { h - 1 - y };
    if a < b { a } else { b }
}

/// How many orcs the wave of a round holds at most: none before round 3, then two fewer than
/// the round.
pub open spec fn orcs_for(round: u8) -> int {
    if round >= 3 { round - 2 } else { 0 }
}

/// A record that a prepared board may hold: on the board, with no pending intent and with
/// health above zero where it has health.
pub open spec fn placeable(r: EntityRecord, width: int, height: int) -> bool {
    &&& r.position.is_some()
    &&& r.renderable.is_some()
    &&& 0 <= r.position.unwrap().x < width
    &&& 0 <= r.position.unwrap().y < height
    &&& r.moving.is_none()
    &&& r.attacking.is_none()
    &&& (r.health.is_some() ==> r.health.unwrap().wf() && r.health.unwrap().amount >= 1)
}

/// The index of the first player record, if any.
pub open spec fn first_player_record(rs: Seq<EntityRecord>, n: int) -> Option<int>
    decreases n,
{
    if n <= 0 {
        None
    } else if first_player_record(rs, n - 1).is_some() {
        first_player_record(rs, n - 1)
    } else if rs[n - 1].player {
        Some(n - 1)
    } else {
        None
    }
}

/// A prepared board that `from_entities` accepts.
pub open spec fn acceptable_board(width: usize, height: usize, rs: Seq<EntityRecord>) -> bool {
    &&& 0 < width <= i32::MAX
    &&& 0 < height <= i32::MAX
    &&& width * height <= usize::MAX
    &&& forall|i: int| 0 <= i < rs.len() ==> placeable(#[trigger] rs[i], width as int, height as int)
    &&& forall|i: int, j: int| 0 <= i < j < rs.len() ==> #[trigger] rs[i].position != #[trigger] rs[j].position
    &&& first_player_record(rs, rs.len() as int).is_some()
}

/// The stages of one pipeline pass, from `s0` to `s6`: the index `m1` rebuilt over `s0` (on a
/// board of `m0`'s size), the decisions (`s1`), blocked moves turned into attacks (`s2`), the
/// moves (`s3`), the blows (`s4`), the removal of those defeated before (`s5`), and the
/// defeat of those whose health ran out (`s6`).
pub open spec fn stages(
    s0: Seq<Option<EntityRecord>>,
    m0: GameMap,
    state: RunState,
    m1: GameMap,
    s1: Seq<Option<EntityRecord>>,
    s2: Seq<Option<EntityRecord>>,
    s3: Seq<Option<EntityRecord>>,
    s4: Seq<Option<EntityRecord>>,
    s5: Seq<Option<EntityRecord>>,
    s6: Seq<Option<EntityRecord>>,
) -> bool {
    &&& m1.spec_width() == m0.spec_width()
    &&& m1.spec_height() == m0.spec_height()
    &&& forall|x: int, y: int| m1.in_map(x, y) ==> #[trigger] m1.cell(x, y) == last_at(s0, x, y, s0.len() as int)
    &&& ai_stage(s0, s1, state)
    &&& s2.len() == s1.len()
    &&& forall|e: int| 0 <= e < s1.len() ==> #[trigger] s2[e] == converted(s1, m1, e)
    &&& s3.len() == s2.len()
    &&& forall|e: int| 0 <= e < s2.len() ==> (#[trigger] s3[e]).is_some() == s2[e].is_some()
        && (s2[e].is_some() ==> moved_ok(s2[e].unwrap(), s3[e].unwrap()) && moves_exactly(s2, s3, m1, e))
    &&& s4.len() == s3.len()
    &&& forall|e: int| 0 <= e < s3.len() ==> #[trigger] s4[e] == match s3[e] {
        Some(r) => Some(EntityRecord { attacking: None, ..after_blows(r, blows(s3, e, s3.len() as int)) }),
        None => None,
    }
    &&& s5.len() == s4.len()
    &&& forall|e: int| 0 <= e < s4.len() ==> #[trigger] s5[e] == match s4[e] {
        Some(r) => if r.defeated { None } else { Some(r) },
        None => None,
    }
    &&& s6.len() == s5.len()
    &&& forall|e: int| 0 <= e < s5.len() ==> #[trigger] s6[e] == match s5[e] {
        Some(r) => Some(defeat(r)),
        None => None,
    }
}

/// One pipeline pass in state `state` takes the entities from `s0` to `s6`.
pub open spec fn pipeline_ran(s0: Seq<Option<EntityRecord>>, m0: GameMap, state: RunState, s6: Seq<Option<EntityRecord>>) -> bool {
    exists|m1: GameMap, s1: Seq<Option<EntityRecord>>, s2: Seq<Option<EntityRecord>>, s3: Seq<Option<EntityRecord>>,
        s4: Seq<Option<EntityRecord>>, s5: Seq<Option<EntityRecord>>|
        #[trigger] stages(s0, m0, state, m1, s1, s2, s3, s4, s5, s6)
}

/// The end of a round takes the entities from `s` to `t` on board `map`: trees may grow,
/// every health is restored, and one house is added on a free cell (none only where no cell
/// is free or no id is left).
pub open spec fn round_end(s: Seq<Option<EntityRecord>>, t: Seq<Option<EntityRecord>>, map: GameMap) -> bool {
    &&& t.len() == s.len() || t.len() == s.len() + 1
    &&& forall|e: int| 0 <= e < s.len() ==> match s[e] {
        Some(r) => #[trigger] t[e] == Some(restored(r)) || (growing_tree(r) && t[e] == Some(restored(grown(r)))),
        None => t[e].is_none(),
    }
    &&& t.len() == s.len() + 1 ==> exists|x: i32, y: i32| #[trigger] t[s.len() as int] == Some(building(x, y, Glyph::House, 2))
    &&& s.len() + 1 < usize::MAX ==> t.len() == s.len() + 1 || !free_cell(map)
}

/// The level a new game starts from, on its 12 by 12 board: 2 houses, 2 farms, 4 walls, 14
/// trees and one player with 5 health points, on distinct cells.
pub open spec fn starting_level(level: Seq<LevelInsert>) -> bool {
    &&& level.len() == 23
    &&& count_inserts(level, LevelItem::House) == 2
    &&& count_inserts(level, LevelItem::Farm) == 2
    &&& count_inserts(level, LevelItem::Wall) == 4
    &&& count_inserts(level, LevelItem::Tree) == 14
    &&& count_inserts(level, LevelItem::Player { health: 5 }) == 1
    &&& forall|i: int| 0 <= i < level.len() ==> (#[trigger] level[i]).position.0 < 12 && level[i].position.1 < 12
    &&& forall|i: int, j: int| 0 <= i < j < level.len() ==> #[trigger] level[i].position != #[trigger] level[j].position
}

/// The entities of a new game: the level, then a first wave of four goblins.
pub open spec fn new_game(w: WorldState) -> bool {
    &&& exists|level: Seq<LevelInsert>| #[trigger] starting_level(level)
        && 23 <= w.entities().len() <= 27
        && forall|i: int| 0 <= i < 23 ==> #[trigger] w.entities()[i] == Some(inserted(level[i]))
    &&& forall|e: int| 23 <= e < w.entities().len() ==> (#[trigger] w.entities()[e]).is_some()
        && wave_monster(w.entities()[e].unwrap(), false)
    &&& w.entities().len() == 27
}

/// A logical representation of the game world and its state.
pub struct WorldState {
    store: Store,
    map: GameMap,
    run_state: RunState,
    logs: Logs,
    rng: RandomNumberGenerator,
    generator: LevelGenerator,
    player_entity: EntityId,
}

impl WorldState {
    /// The map of an invariant-holding world indexes its entities.
    pub proof fn lemma_entities_indexed(&self)
        requires
            self.inv(),
        ensures
            positions_distinct(self.entities()),
    {
        self.store.lemma_len_bound();
        lemma_indexed_positions_distinct(self.map, self.store@);
    }

    /// The entities of the world.
    pub closed spec fn entities(&self) -> Seq<Option<EntityRecord>> {
        self.store@
    }

    pub closed spec fn state(&self) -> RunState {
        self.run_state
    }

    pub closed spec fn spec_round(&self) -> u8 {
        self.map.spec_round()
    }

    pub closed spec fn spec_money(&self) -> u8 {
        self.map.spec_money()
    }

    /// The farms counted when the index was last rebuilt.
    pub closed spec fn spec_farms(&self) -> u8 {
        self.map.spec_farms()
    }

    pub closed spec fn spec_houses(&self) -> u8 {
        self.map.spec_houses()
    }

    pub closed spec fn player(&self) -> EntityId {
        self.player_entity
    }

    pub closed spec fn board(&self) -> GameMap {
        self.map
    }

    pub closed spec fn spec_logs(&self) -> Seq<LogMessage> {
        self.logs@
    }

    /// What holds between commands: the index matches the entities, no attack is pending, only
    /// the player may intend a move and only on its turn, and every health is above zero.
    pub closed spec fn inv(&self) -> bool {
        &&& self.store.wf()
        &&& self.map.wf()
        &&& indexes(self.map, self.store@)
        &&& self.generator.spec_width() == self.map.spec_width()
        &&& self.generator.spec_height() == self.map.spec_height()
        &&& no_attacks(self.store@)
        &&& positioned_drawn(self.store@)
        &&& forall|e: int| #[trigger] live(self.store@, e) && self.store@[e].unwrap().moving.is_some()
            ==> self.run_state == RunState::PlayerTurn && e == self.player_entity
        &&& healthy(self.store@)
    }

    /// Runs the pipeline once: index, decide, convert blocked moves to attacks, move, strike,
    /// remove those defeated on the previous pass, and mark those whose health ran out.
    fn run_systems(&mut self)
        requires
            old(self).inv(),
        ensures
            final(self).store.wf(),
            final(self).map.wf(),
            indexes(final(self).map, final(self).store@),
            no_attacks(final(self).store@),
            no_moves(final(self).store@),
            healthy(final(self).store@),
            final(self).store@.len() == old(self).store@.len(),
            forall|e: int| #[trigger] live(old(self).store@, e) && old(self).store@[e].unwrap().defeated
                ==> final(self).store@[e].is_none(),
            forall|e: int| 0 <= e < old(self).store@.len() && old(self).store@[e].is_none()
                ==> (#[trigger] final(self).store@[e]).is_none(),
            final(self).map.spec_width() == old(self).map.spec_width(),
            final(self).map.spec_height() == old(self).map.spec_height(),
            final(self).map.spec_round() == old(self).map.spec_round(),
            final(self).map.spec_money() == old(self).map.spec_money(),
            final(self).generator == old(self).generator,
            final(self).run_state == old(self).run_state,
            final(self).player_entity == old(self).player_entity,
            positioned_drawn(final(self).store@),
            pipeline_ran(old(self).store@, old(self).map, old(self).run_state, final(self).store@),
    {
        let ghost s0 = self.store@;
        let ghost m0 = self.map;
        proof {
            self.store.lemma_len_bound();
            lemma_indexed_positions_distinct(self.map, self.store@);
        }
        MapIndexingSystem.run(&mut self.map, &self.store);
        let ghost m_index = self.map;
        proof {
            lemma_rebuilt_indexes(self.map, s0);
        }
        AISystem.run(&mut self.store, self.run_state, &mut self.rng);
        let ghost s1 = self.store@;
        proof {
            assert forall|e: int| #[trigger] pos_of(s1, e) == pos_of(s0, e) by {
                if 0 <= e < s0.len() {
                    assert(s1[e].is_some() == s0[e].is_some());
                }
            }
            lemma_same_positions(self.map, s0, s1);
        }
        let ghost m1 = self.map;
        ConvertMovementToMeleeAttackSystem.run(&mut self.store, &self.map);
        let ghost s2 = self.store@;
        proof {
            assert forall|e: int| #[trigger] pos_of(s2, e) == pos_of(s1, e) by {
                if 0 <= e < s1.len() {
                    assert(s2[e] == converted(s1, self.map, e));
                }
            }
            lemma_same_positions(self.map, s1, s2);
        }
        MovementSystem.run(&mut self.store, &mut self.map);
        let ghost s3 = self.store@;
        ApplyAttackSystem.run(&mut self.store, &mut self.logs);
        let ghost s4 = self.store@;
        proof {
            assert forall|e: int| #[trigger] pos_of(s4, e) == pos_of(s3, e) by {
                if 0 <= e < s3.len() {
                    assert(s4[e].is_some() == s3[e].is_some());
                }
            }
            lemma_same_positions(self.map, s3, s4);
        }
        RemoveDefeatedSystem.run(&mut self.store, &mut self.map);
        let ghost s5 = self.store@;
        DefeatSystem.run(&mut self.store);
        let ghost s6 = self.store@;
        proof {
            assert forall|e: int| #[trigger] pos_of(s6, e) == pos_of(s5, e) by {
                if 0 <= e < s5.len() {
                    assert(s6[e].is_some() == s5[e].is_some());
                }
            }
            lemma_same_positions(self.map, s5, s6);
            assert(m1 == m_index);
            assert(stages(s0, m0, self.run_state, m_index, s1, s2, s3, s4, s5, s6));
            assert forall|e: int| 0 <= e < s0.len() implies
                (s6[e].is_some() ==> s0[e].is_some()
                    && s6[e].unwrap().attacking.is_none()
                    && s6[e].unwrap().moving.is_none()
                    && !s0[e].unwrap().defeated
                    && (s6[e].unwrap().position.is_some() ==> s6[e].unwrap().renderable.is_some())
                    && (s6[e].unwrap().health.is_some() ==> s6[e].unwrap().health.unwrap().wf() && s6[e].unwrap().health.unwrap().amount >= 1))
                && (s0[e].is_none() ==> s6[e].is_none()) by {
                assert(s1[e].is_some() == s0[e].is_some());
                if s6[e].is_some() {
                    assert(s5[e].is_some());
                    assert(s4[e].is_some());
                    assert(s3[e].is_some());
                    assert(s2[e] == converted(s1, m1, e));
                    assert(s1[e].unwrap().health == s0[e].unwrap().health);
                    assert(s1[e].unwrap().defeated == s0[e].unwrap().defeated);
                    assert(moved_ok(s2[e].unwrap(), s3[e].unwrap()));
                    if s0[e].unwrap().health.is_some() {
                        assert(live(s0, e));
                    }
                    if s3[e].unwrap().position.is_some() {
                        assert(s2[e].unwrap().position.is_some());
                        assert(s1[e].unwrap().position == s0[e].unwrap().position);
                        assert(pos_of(s0, e).is_some());
                    }
                }
            }
        }
    }

    /// Adds a house near the existing houses (on a free cell), where a cell is free and an id
    /// is left.
    fn spawn_house(&mut self)
        requires
            settled(old(self).store, old(self).map),
            old(self).generator.spec_width() == old(self).map.spec_width(),
            old(self).generator.spec_height() == old(self).map.spec_height(),
        ensures
            settled(final(self).store, final(self).map),
            final(self).store@ == old(self).store@ || exists|x: i32, y: i32| final(self).store@ == old(self).store@.push(Some(building(x, y, Glyph::House, 2))),
            free_cell(old(self).map) && old(self).store@.len() < usize::MAX ==> final(self).store@.len() == old(self).store@.len() + 1,
            old(self).store@.len() < usize::MAX ==> final(self).store@.len() == old(self).store@.len() + 1 || !free_cell(final(self).map),
            final(self).map.spec_width() == old(self).map.spec_width(),
            final(self).map.spec_height() == old(self).map.spec_height(),
            final(self).map.spec_round() == old(self).map.spec_round(),
            final(self).map.spec_money() == old(self).map.spec_money(),
            final(self).map.spec_farms() == old(self).map.spec_farms(),
            final(self).map.spec_houses() == old(self).map.spec_houses(),
            final(self).generator == old(self).generator,
            final(self).run_state == old(self).run_state,
            final(self).player_entity == old(self).player_entity,
    {
        proof {
            self.map.lemma_dims();
        }
        let w = self.map.width();
        let h = self.map.height();
        let ghost gw = w as int;
        let ghost gh = h as int;
        // Houses stay houses; every other entity is an obstacle.
        let mut grid: Grid = Vec::new();
        let mut free = false;
        let mut y: usize = 0;
        while y < h
            invariant
                self.map.wf(),
                self.store.wf(),
                gw == self.map.spec_width(),
                gh == self.map.spec_height(),
                w == gw,
                h == gh,
                gw <= i32::MAX,
                gh <= i32::MAX,
                y <= h,
                grid@.len() == y,
                forall|yy: int| 0 <= yy < y ==> #[trigger] grid@[yy]@.len() == w,
                forall|xx: int, yy: int| 0 <= xx < w && 0 <= yy < y ==> (#[trigger] at(grid@, xx, yy)).is_none() == self.map.cell(xx, yy).is_none(),
                free ==> exists|xx: int, yy: int| 0 <= xx < w && 0 <= yy < y && #[trigger] at(grid@, xx, yy).is_none(),
                !free ==> forall|xx: int, yy: int| 0 <= xx < w && 0 <= yy < y ==> (#[trigger] self.map.cell(xx, yy)).is_some(),
            decreases h - y,
        {
            let mut row: Vec<Option<LevelItem>> = Vec::new();
            let mut x: usize = 0;
            let ghost free0 = free;
            while x < w
                invariant
                    self.map.wf(),
                    self.store.wf(),
                    gw == self.map.spec_width(),
                    gh == self.map.spec_height(),
                    w == gw,
                    h == gh,
                    gw <= i32::MAX,
                    gh <= i32::MAX,
                    y < h,
                    x <= w,
                    row@.len() == x,
                    free0 ==> free,
                    forall|xx: int| 0 <= xx < x ==> (#[trigger] row@[xx]).is_none() == self.map.cell(xx, y as int).is_none(),
                    free && !free0 ==> exists|xx: int| 0 <= xx < x && (#[trigger] row@[xx]).is_none(),
                    !free ==> forall|xx: int| 0 <= xx < x ==> (#[trigger] self.map.cell(xx, y as int)).is_some(),
                decreases w - x,
            {
                let ghost row0 = row@;
                let ghost free1 = free;
                match self.map.get_entity(x as i32, y as i32) {
                    Some(e) => {
                        let house = match self.store.get(e) {
                            Some(rec) => match rec.renderable {
                                Some(r) => r.glyph == Glyph::House,
                                None => false,
                            },
                            None => false,
                        };
                        if house {
                            row.push(Some(LevelItem::House));
                        } else {
                            row.push(Some(LevelItem::Tree));
                        }
                    },
                    None => {
                        row.push(None);
                        free = true;
                    },
                }
                proof {
                    assert(row@[x as int].is_none() == self.map.cell(x as int, y as int).is_none());
                    if free && !free0 {
                        if row@[x as int].is_none() {
                            assert(row@[x as int].is_none());
                        } else {
                            assert(free1);
                            let xx = choose|xx: int| 0 <= xx < x && (#[trigger] row0[xx]).is_none();
                            assert(row@[xx] == row0[xx]);
                        }
                    }
                }
                x = x + 1;
            }
            let ghost g0 = grid@;
            grid.push(row);
            proof {
                assert forall|xx: int, yy: int| 0 <= xx < w && 0 <= yy < y + 1 implies (#[trigger] at(grid@, xx, yy)).is_none() == self.map.cell(xx, yy).is_none() by {
                    if yy < y {
                        assert(grid@[yy] == g0[yy]);
                        assert(at(g0, xx, yy).is_none() == self.map.cell(xx, yy).is_none());
                    } else {
                        assert(grid@[yy] == row);
                    }
                }
                if free {
                    if free0 {
                        let (xx, yy) = choose|xx: int, yy: int| 0 <= xx < w && 0 <= yy < y && #[trigger] at(g0, xx, yy).is_none();
                        assert(grid@[yy] == g0[yy]);
                        assert(at(grid@, xx, yy).is_none());
                    } else {
                        let xx = choose|xx: int| 0 <= xx < x && (#[trigger] row@[xx]).is_none();
                        assert(grid@[y as int] == row);
                        assert(at(grid@, xx, y as int).is_none());
                    }
                } else {
                    assert forall|xx: int, yy: int| 0 <= xx < w && 0 <= yy < y + 1 implies (#[trigger] self.map.cell(xx, yy)).is_some() by {
                        if yy < y {
                        } else {
                            assert(self.map.cell(xx, y as int).is_some());
                        }
                    }
                }
            }
            y = y + 1;
        }
        if !free {
            proof {
                assert(!free_cell(self.map)) by {
                    if free_cell(self.map) {
                        let (xx, yy) = choose|xx: int, yy: int| self.map.in_map(xx, yy) && #[trigger] self.map.cell(xx, yy).is_none();
                        assert(self.map.cell(xx, yy).is_some());
                    }
                }
            }
            return;
        }
        if self.store.len() == usize::MAX {
            return;
        }
        proof {
            assert(grid_wf(grid@, gw, gh));
            let (xx, yy) = choose|xx: int, yy: int| 0 <= xx < w && 0 <= yy < h && #[trigger] at(grid@, xx, yy).is_none();
            assert(open_cell(grid@, gw, gh, xx, yy));
        }
        let (hx, hy) = self.generator.find_somewhat_adjacent_position(&mut self.rng, 2, 5, &LevelItem::House, &grid);
        proof {
            assert(at(grid@, hx as int, hy as int).is_none());
        }
        let rec = configure_house(hx as i32, hy as i32);
        let ghost s_before = self.store@;
        place(&mut self.store, &mut self.map, rec, hx as i32, hy as i32);
        proof {
            lemma_push_drawn(s_before, rec);
            let s = self.store@;
            assert forall|e: int| #[trigger] live(s, e) implies s[e].unwrap().attacking.is_none() && s[e].unwrap().moving.is_none()
                && (s[e].unwrap().health.is_some() ==> s[e].unwrap().health.unwrap().wf() && s[e].unwrap().health.unwrap().amount >= 1) by {
                if e < s.len() - 1 {
                    assert(live(old(self).store@, e));
                }
            }
        }
    }

    /// The end of a round: the round advances, trees grow, every health is restored, each farm
    /// pays one $, and a new house appears.
    fn switch_to_building_turn(&mut self)
        requires
            settled(old(self).store, old(self).map),
            old(self).generator.spec_width() == old(self).map.spec_width(),
            old(self).generator.spec_height() == old(self).map.spec_height(),
        ensures
            settled(final(self).store, final(self).map),
            all_restored(final(self).store@),
            round_end(old(self).store@, final(self).store@, final(self).map),
            final(self).map.spec_round() == if old(self).map.spec_round() < 255 { old(self).map.spec_round() + 1 } else { 255 },
            final(self).map.spec_money() == saturate((old(self).map.spec_money() + old(self).map.spec_farms()) as nat),
            final(self).store@.len() == old(self).store@.len() || final(self).store@.len() == old(self).store@.len() + 1,
            forall|e: int| 0 <= e < old(self).store@.len() ==> (#[trigger] final(self).store@[e]).is_some() == old(self).store@[e].is_some(),
            forall|e: int| old(self).store@.len() <= e < final(self).store@.len() ==> (#[trigger] final(self).store@[e]).is_some()
                && final(self).store@[e].unwrap().renderable == Some(crate::components::Renderable { glyph: Glyph::House })
                && !final(self).store@[e].unwrap().monster,
            !monsters_left(old(self).store@) ==> !monsters_left(final(self).store@),
            free_cell(old(self).map) && old(self).store@.len() < usize::MAX ==> final(self).store@.len() == old(self).store@.len() + 1,
            final(self).map.spec_width() == old(self).map.spec_width(),
            final(self).map.spec_height() == old(self).map.spec_height(),
            final(self).map.spec_farms() == old(self).map.spec_farms(),
            final(self).map.spec_houses() == old(self).map.spec_houses(),
            final(self).generator == old(self).generator,
            final(self).run_state == old(self).run_state,
            final(self).player_entity == old(self).player_entity,
    {
        let ghost s0 = self.store@;
        let ghost m0 = self.map;
        self.map.next_round();
        TreeGrowthSystem.run(&mut self.store, &mut self.rng);
        let ghost s1 = self.store@;
        reset_health(&mut self.store);
        let ghost s2 = self.store@;
        let money = self.map.money().saturating_add(self.map.farms());
        self.map.set_money(money);
        proof {
            assert forall|e: int| #[trigger] pos_of(s2, e) == pos_of(s0, e) by {
                if 0 <= e < s0.len() {
                    assert(s1[e].is_some() == s0[e].is_some());
                }
            }
            assert forall|x: int, y: int| self.map.in_map(x, y) implies #[trigger] self.map.cell(x, y) == m0.cell(x, y) by {
            }
            assert forall|e: int| #[trigger] pos_of(s0, e).is_some() implies self.map.in_map(pos_of(s0, e).unwrap().x as int, pos_of(s0, e).unwrap().y as int)
                && self.map.cell(pos_of(s0, e).unwrap().x as int, pos_of(s0, e).unwrap().y as int) == Some(e as usize) by {
            }
            assert forall|x: int, y: int| self.map.in_map(x, y) && #[trigger] self.map.cell(x, y).is_some()
                implies pos_of(s0, self.map.cell(x, y).unwrap() as int) == Some(Position { x: x as i32, y: y as i32 }) by {
                assert(m0.cell(x, y).is_some());
            }
            lemma_same_positions(self.map, s0, s2);
            assert forall|e: int| #[trigger] live(s2, e) implies s2[e].unwrap().attacking.is_none() && s2[e].unwrap().moving.is_none()
                && !(s0[e].unwrap().monster && !s2[e].unwrap().monster) && s2[e].unwrap().monster == s0[e].unwrap().monster
                && (s2[e].unwrap().health.is_some() ==> s2[e].unwrap().health.unwrap().wf() && s2[e].unwrap().health.unwrap().amount >= 1
                    && s2[e].unwrap().health.unwrap().amount == s2[e].unwrap().health.unwrap().maximum) by {
                assert(s1[e].is_some() == s0[e].is_some());
                assert(live(s0, e));
            }
            assert(free_cell(self.map) == free_cell(m0)) by {
                if free_cell(m0) {
                    let (x, y) = choose|x: int, y: int| m0.in_map(x, y) && #[trigger] m0.cell(x, y).is_none();
                    assert(self.map.cell(x, y).is_none());
                }
                if free_cell(self.map) {
                    let (x, y) = choose|x: int, y: int| self.map.in_map(x, y) && #[trigger] self.map.cell(x, y).is_none();
                    assert(m0.cell(x, y).is_none());
                }
            }
        }
        self.spawn_house();
        proof {
            let s3 = self.store@;
            assert forall|e: int| 0 <= e < s0.len() implies match s0[e] {
                Some(r) => #[trigger] s3[e] == Some(restored(r)) || (growing_tree(r) && s3[e] == Some(restored(grown(r)))),
                None => s3[e].is_none(),
            } by {
                assert(s3[e] == s2[e]);
                if s1[e] != s0[e] {
                    assert(s0[e].is_some() && growing_tree(s0[e].unwrap()) && s1[e] == Some(grown(s0[e].unwrap())));
                }
            }
            if s3.len() == s0.len() + 1 {
                let (x, y) = choose|x: i32, y: i32| s3 == s2.push(Some(building(x, y, Glyph::House, 2)));
                assert(s3[s0.len() as int] == Some(building(x, y, Glyph::House, 2)));
            }
            assert forall|e: int| #[trigger] live(s3, e) && s3[e].unwrap().health.is_some()
                implies s3[e].unwrap().health.unwrap().amount == s3[e].unwrap().health.unwrap().maximum by {
                if e < s2.len() {
                    assert(live(s2, e));
                }
            }
            if !monsters_left(s0) {
                assert forall|e: int| #[trigger] live(s3, e) implies !s3[e].unwrap().monster by {
                    if e < s2.len() {
                        assert(live(s2, e));
                        assert(live(s0, e));
                    }
                }
            }
        }
    }

    /// Advances the state machine by one step, running the pipeline where the state calls for
    /// it.
    pub fn tick(&mut self)
        requires
            old(self).inv(),
        ensures
            final(self).inv(),
            no_moves(final(self).entities()),
            no_attacks(final(self).entities()),
            healthy(final(self).entities()),
            old(self).state() != RunState::AwaitingInput ==> forall|e: int| #[trigger] live(old(self).entities(), e)
                && old(self).entities()[e].unwrap().defeated ==> final(self).entities()[e].is_none(),
            final(self).state() == match old(self).state() {
                RunState::PreRun => RunState::AwaitingInput,
                RunState::AwaitingInput => RunState::AwaitingInput,
                RunState::PlayerTurn => RunState::MonsterTurn,
                RunState::MonsterTurn => if monsters_left(final(self).entities()) { RunState::AwaitingInput } else { RunState::BuildingTurn },
                RunState::BuildingTurn => RunState::BuildingTurn,
            },
            final(self).spec_round() == if old(self).state() == RunState::MonsterTurn && final(self).state() == RunState::BuildingTurn {
                if old(self).spec_round() < 255 { (old(self).spec_round() + 1) as u8 } else { 255u8 }
            } else {
                old(self).spec_round()
            },
            old(self).state() == RunState::MonsterTurn && final(self).state() == RunState::BuildingTurn ==> all_restored(final(self).entities())
                && final(self).spec_money() == saturate((old(self).spec_money() + final(self).spec_farms()) as nat),
            !(old(self).state() == RunState::MonsterTurn && final(self).state() == RunState::BuildingTurn)
                ==> final(self).spec_money() == old(self).spec_money(),
            final(self).player() == old(self).player(),
            old(self).state() == RunState::AwaitingInput ==> *final(self) == *old(self),
            old(self).state() != RunState::AwaitingInput ==> exists|mid: Seq<Option<EntityRecord>>|
                #[trigger] pipeline_ran(old(self).entities(), old(self).board(), old(self).state(), mid)
                && if old(self).state() == RunState::MonsterTurn && final(self).state() == RunState::BuildingTurn {
                    round_end(mid, final(self).entities(), final(self).board())
                } else {
                    final(self).entities() == mid
                },
    {
        let ghost s0 = self.store@;
        let ghost w0 = *self;
        match self.run_state {
            RunState::PreRun => {
                self.run_systems();
                self.run_state = RunState::AwaitingInput;
                proof {
                    assert(pipeline_ran(w0.store@, w0.map, w0.run_state, self.store@));
                    assert(pipeline_ran(w0.entities(), w0.board(), w0.state(), self.entities()));
                }
            },
            RunState::AwaitingInput => {
                proof {
                    assert forall|e: int| #[trigger] live(self.store@, e) implies self.store@[e].unwrap().moving.is_none() by {
                        if self.store@[e].unwrap().moving.is_some() {
                            assert(self.run_state == RunState::PlayerTurn);
                        }
                    }
                }
            },
            RunState::PlayerTurn => {
                self.run_systems();
                self.run_state = RunState::MonsterTurn;
                proof {
                    assert(pipeline_ran(w0.store@, w0.map, w0.run_state, self.store@));
                    assert(pipeline_ran(w0.entities(), w0.board(), w0.state(), self.entities()));
                }
            },
            RunState::MonsterTurn => {
                self.run_systems();
                let ghost mid = self.store@;
                proof {
                    assert(pipeline_ran(w0.store@, w0.map, w0.run_state, mid));
                    assert(pipeline_ran(w0.entities(), w0.board(), w0.state(), mid));
                }
                if any_monster(&self.store) {
                    self.run_state = RunState::AwaitingInput;
                } else {
                    let ghost s1 = self.store@;
                    self.switch_to_building_turn();
                    self.run_state = RunState::BuildingTurn;
                    proof {
                        assert(!monsters_left(self.store@));
                        assert forall|e: int| #[trigger] live(s0, e) && s0[e].unwrap().defeated implies self.store@[e].is_none() by {
                            assert(s1[e].is_none());
                        }
                    }
                }
            },
            RunState::BuildingTurn => {
                self.run_systems();
                self.run_state = RunState::BuildingTurn;
                proof {
                    assert(pipeline_ran(w0.store@, w0.map, w0.run_state, self.store@));
                    assert(pipeline_ran(w0.entities(), w0.board(), w0.state(), self.entities()));
                }
            },
        }
    }

    /// Spawns the wave of the current round: `round + 3` monsters on free cells, taken from the
    /// outermost ring of the board that has room and inwards (fewer only where the board fills
    /// up); after round 2, `round - 2` of them are orcs and the rest goblins.
    fn spawn_monsters(&mut self)
        requires
            settled(old(self).store, old(self).map),
        ensures
            settled(final(self).store, final(self).map),
            old(self).store@.len() <= final(self).store@.len() <= old(self).store@.len() + old(self).map.spec_round() + 3,
            old(self).store@.len() + old(self).map.spec_round() + 3 <= usize::MAX ==>
                final(self).store@.len() == old(self).store@.len() + old(self).map.spec_round() + 3 || !free_cell(final(self).map),
            forall|e: int| 0 <= e < old(self).store@.len() ==> #[trigger] final(self).store@[e] == old(self).store@[e],
            forall|e: int| old(self).store@.len() <= e < final(self).store@.len() ==> (#[trigger] final(self).store@[e]).is_some()
                && wave_monster(final(self).store@[e].unwrap(), e - old(self).store@.len() < orcs_for(old(self).map.spec_round())),
            final(self).map.spec_width() == old(self).map.spec_width(),
            final(self).map.spec_height() == old(self).map.spec_height(),
            final(self).map.spec_round() == old(self).map.spec_round(),
            final(self).map.spec_money() == old(self).map.spec_money(),
            final(self).map.spec_farms() == old(self).map.spec_farms(),
            final(self).map.spec_houses() == old(self).map.spec_houses(),
            final(self).generator == old(self).generator,
            final(self).run_state == old(self).run_state,
            final(self).player_entity == old(self).player_entity,
            final(self).logs == old(self).logs,
    {
        proof {
            self.map.lemma_dims();
        }
        let round = self.map.round();
        let goal: usize = round as usize + 3;
        let w = self.map.width();
        let h = self.map.height();
        let ghost m0 = self.map;

        // Free cells, ring by ring from the edge inwards, until there are enough.
        let mut positions: Vec<(i32, i32)> = Vec::new();
        let mut from_edge: usize = 0;
        while positions.len() < goal && from_edge < w - from_edge && from_edge < h - from_edge
            invariant
                self.store == old(self).store,
                self.map == old(self).map,
                self.generator == old(self).generator,
                self.run_state == old(self).run_state,
                self.player_entity == old(self).player_entity,
                self.logs == old(self).logs,
                m0 == self.map,
                self.map.wf(),
                w == self.map.spec_width(),
                h == self.map.spec_height(),
                0 < w <= i32::MAX,
                0 < h <= i32::MAX,
                from_edge <= w,
                from_edge <= h,
                positions@.no_duplicates(),
                forall|k: int| 0 <= k < positions@.len() ==> m0.in_map((#[trigger] positions@[k]).0 as int, positions@[k].1 as int)
                    && m0.cell(positions@[k].0 as int, positions@[k].1 as int).is_none(),
                forall|x: int, y: int| m0.in_map(x, y) && #[trigger] m0.cell(x, y).is_none() && ring_of(x, y, w as int, h as int) < from_edge
                    ==> positions@.contains((x as i32, y as i32)),
            decreases w - from_edge,
        {
            let mut ring: Vec<(i32, i32)> = Vec::new();
            let mut x: usize = from_edge;
            while x < w - from_edge
                invariant
                    from_edge < w - from_edge,
                    from_edge < h - from_edge,
                    w <= i32::MAX,
                    h <= i32::MAX,
                    from_edge <= x <= w - from_edge,
                    forall|x2: int| from_edge <= x2 < x ==> #[trigger] has_cell(ring@, x2, from_edge as int)
                        && has_cell(ring@, x2, h - from_edge - 1),
                decreases w - from_edge - x,
            {
                let ghost r0 = ring@;
                ring.push((x as i32, from_edge as i32));
                ring.push((x as i32, (h - from_edge - 1) as i32));
                proof {
                    assert forall|p: (i32, i32)| r0.contains(p) implies ring@.contains(p) by {
                        let k = choose|k: int| 0 <= k < r0.len() && r0[k] == p;
                        assert(ring@[k] == p);
                    }
                    assert forall|x2: int| from_edge <= x2 < x + 1 implies #[trigger] has_cell(ring@, x2, from_edge as int)
                        && has_cell(ring@, x2, h - from_edge - 1) by {
                        if x2 < x {
                            assert(has_cell(r0, x2, from_edge as int));
                            assert(has_cell(r0, x2, h - from_edge - 1));
                        } else {
                            assert(ring@[r0.len() as int] == (x2 as i32, from_edge as i32));
                            assert(ring@[r0.len() as int + 1] == (x2 as i32, (h - from_edge - 1) as i32));
                        }
                    }
                }
                x = x + 1;
            }
            let mut y: usize = from_edge;
            while y < h - from_edge
                invariant
                    from_edge < w - from_edge,
                    from_edge < h - from_edge,
                    w <= i32::MAX,
                    h <= i32::MAX,
                    from_edge <= y <= h - from_edge,
                    forall|x2: int| from_edge <= x2 < w - from_edge ==> #[trigger] has_cell(ring@, x2, from_edge as int)
                        && has_cell(ring@, x2, h - from_edge - 1),
                    forall|y2: int| from_edge <= y2 < y ==> #[trigger] has_cell(ring@, from_edge as int, y2)
                        && has_cell(ring@, w - from_edge - 1, y2),
                decreases h - from_edge - y,
            {
                let ghost r0 = ring@;
                ring.push((from_edge as i32, y as i32));
                ring.push(((w - from_edge - 1) as i32, y as i32));
                proof {
                    assert forall|p: (i32, i32)| r0.contains(p) implies ring@.contains(p) by {
                        let k = choose|k: int| 0 <= k < r0.len() && r0[k] == p;
                        assert(ring@[k] == p);
                    }
                    assert forall|x2: int| from_edge <= x2 < w - from_edge implies #[trigger] has_cell(ring@, x2, from_edge as int)
                        && has_cell(ring@, x2, h - from_edge - 1) by {
                        assert(has_cell(r0, x2, from_edge as int));
                        assert(has_cell(r0, x2, h - from_edge - 1));
                    }
                    assert forall|y2: int| from_edge <= y2 < y + 1 implies #[trigger] has_cell(ring@, from_edge as int, y2)
                        && has_cell(ring@, w - from_edge - 1, y2) by {
                        if y2 < y {
                            assert(has_cell(r0, from_edge as int, y2));
                            assert(has_cell(r0, w - from_edge - 1, y2));
                        } else {
                            assert(ring@[r0.len() as int] == (from_edge as i32, y2 as i32));
                            assert(ring@[r0.len() as int + 1] == ((w - from_edge - 1) as i32, y2 as i32));
                        }
                    }
                }
                y = y + 1;
            }
            proof {
                assert forall|x2: int, y2: int| m0.in_map(x2, y2) && ring_of(x2, y2, w as int, h as int) == from_edge
                    implies ring@.contains((x2 as i32, y2 as i32)) by {
                    lemma_ring_covered(ring@, from_edge as int, w as int, h as int, x2, y2);
                }
            }
            let ghost before_shuffle = ring@;
            self.generator.shuffle(&mut self.rng, &mut ring);
            proof {
                broadcast use group_to_multiset_ensures;
                assert forall|p: (i32, i32)| before_shuffle.contains(p) implies ring@.contains(p) by {
                    assert(ring@.to_multiset().count(p) == before_shuffle.to_multiset().count(p));
                }
            }
            let mut i: usize = 0;
            while i < ring.len()
                invariant
                    self.store == old(self).store,
                    self.map == old(self).map,
                    self.generator == old(self).generator,
                    self.run_state == old(self).run_state,
                    self.player_entity == old(self).player_entity,
                    self.logs == old(self).logs,
                    m0 == self.map,
                    self.map.wf(),
                    w == self.map.spec_width(),
                    h == self.map.spec_height(),
                    0 < w <= i32::MAX,
                    0 < h <= i32::MAX,
                    i <= ring@.len(),
                    positions@.no_duplicates(),
                    forall|k: int| 0 <= k < positions@.len() ==> m0.in_map((#[trigger] positions@[k]).0 as int, positions@[k].1 as int)
                        && m0.cell(positions@[k].0 as int, positions@[k].1 as int).is_none(),
                    forall|x: int, y: int| m0.in_map(x, y) && #[trigger] m0.cell(x, y).is_none() && ring_of(x, y, w as int, h as int) < from_edge
                        ==> positions@.contains((x as i32, y as i32)),
                    forall|k: int| 0 <= k < i && m0.in_map((#[trigger] ring@[k]).0 as int, ring@[k].1 as int)
                        && m0.cell(ring@[k].0 as int, ring@[k].1 as int).is_none() ==> positions@.contains(ring@[k]),
                decreases ring@.len() - i,
            {
                let (cx, cy) = ring[i];
                let ghost prior = positions@;
                if self.map.in_bounds(cx, cy) && self.map.get_entity(cx, cy).is_none() && !holds(&positions, (cx, cy)) {
                    positions.push((cx, cy));
                    proof {
                        assert forall|p: (i32, i32)| prior.contains(p) implies positions@.contains(p) by {
                            let k = choose|k: int| 0 <= k < prior.len() && prior[k] == p;
                            assert(positions@[k] == p);
                        }
                        assert(positions@[prior.len() as int] == (cx, cy));
                        assert forall|a: int, b: int| 0 <= a < b < positions@.len() implies positions@[a] != positions@[b] by {
                            if b == prior.len() {
                                assert(prior.contains(positions@[a]));
                            }
                        }
                    }
                }
                i = i + 1;
            }
            proof {
                assert forall|x: int, y: int| m0.in_map(x, y) && #[trigger] m0.cell(x, y).is_none() && ring_of(x, y, w as int, h as int) < from_edge + 1
                    implies positions@.contains((x as i32, y as i32)) by {
                    if ring_of(x, y, w as int, h as int) == from_edge {
                        assert(ring@.contains((x as i32, y as i32)));
                        let k = choose|k: int| 0 <= k < ring@.len() && ring@[k] == (x as i32, y as i32);
                        assert(m0.in_map(ring@[k].0 as int, ring@[k].1 as int));
                    }
                }
            }
            from_edge = from_edge + 1;
        }
        proof {
            if positions@.len() < goal {
                assert forall|x: int, y: int| m0.in_map(x, y) && #[trigger] m0.cell(x, y).is_none()
                    implies positions@.contains((x as i32, y as i32)) by {
                    assert(ring_of(x, y, w as int, h as int) < from_edge);
                }
            }
            positions@.lemma_multiset_has_no_duplicates();
        }
        let ghost collected = positions@;
        self.generator.shuffle(&mut self.rng, &mut positions);
        proof {
            broadcast use group_to_multiset_ensures;
            assert forall|x: (i32, i32)| positions@.to_multiset().contains(x) implies positions@.to_multiset().count(x) == 1 by {
                assert(collected.to_multiset().count(x) == positions@.to_multiset().count(x));
            }
            positions@.lemma_multiset_has_no_duplicates_conv();
            assert forall|p: (i32, i32)| positions@.contains(p) <==> collected.contains(p) by {
                assert(positions@.to_multiset().count(p) == collected.to_multiset().count(p));
            }
            assert forall|k: int| 0 <= k < positions@.len() implies m0.in_map((#[trigger] positions@[k]).0 as int, positions@[k].1 as int)
                && m0.cell(positions@[k].0 as int, positions@[k].1 as int).is_none() by {
                assert(collected.contains(positions@[k]));
            }
        }

        // The first of them become orcs, the rest goblins.
        let ghost s0 = self.store@;
        let mut orcs: usize = if round >= 3 { (round - 2) as usize } else { 0 };
        let mut spawned: usize = 0;
        let mut i: usize = 0;
        while i < positions.len() && spawned < goal
            invariant
                settled(self.store, self.map),
                self.map.spec_width() == old(self).map.spec_width(),
                self.map.spec_height() == old(self).map.spec_height(),
                self.map.spec_round() == old(self).map.spec_round(),
                self.map.spec_money() == old(self).map.spec_money(),
                self.map.spec_farms() == old(self).map.spec_farms(),
                self.map.spec_houses() == old(self).map.spec_houses(),
                self.generator == old(self).generator,
                self.run_state == old(self).run_state,
                self.player_entity == old(self).player_entity,
                self.logs == old(self).logs,
                s0 == old(self).store@,
                m0 == old(self).map,
                round == old(self).map.spec_round(),
                goal == round + 3,
                w == m0.spec_width(),
                h == m0.spec_height(),
                spawned <= goal,
                i <= positions@.len(),
                self.store@.len() == s0.len() + spawned,
                s0.len() + goal <= usize::MAX ==> spawned == i,
                orcs == if orcs_for(round) > spawned { orcs_for(round) - spawned } else { 0 },
                positions@.no_duplicates(),
                forall|k: int| i <= k < positions@.len() ==> self.map.in_map((#[trigger] positions@[k]).0 as int, positions@[k].1 as int)
                    && self.map.cell(positions@[k].0 as int, positions@[k].1 as int).is_none(),
                forall|k: int| 0 <= k < i ==> self.map.cell((#[trigger] positions@[k]).0 as int, positions@[k].1 as int).is_some()
                    || !(s0.len() + goal <= usize::MAX),
                forall|x: int, y: int| m0.in_map(x, y) && #[trigger] m0.cell(x, y).is_some() ==> self.map.cell(x, y).is_some(),
                collected.len() < goal ==> forall|x: int, y: int| m0.in_map(x, y) && #[trigger] m0.cell(x, y).is_none()
                    ==> positions@.contains((x as i32, y as i32)),
                positions@.len() == collected.len(),
                forall|k: int| 0 <= k < positions@.len() ==> m0.in_map((#[trigger] positions@[k]).0 as int, positions@[k].1 as int),
                forall|e: int| 0 <= e < s0.len() ==> #[trigger] self.store@[e] == s0[e],
                forall|e: int| s0.len() <= e < self.store@.len() ==> (#[trigger] self.store@[e]).is_some()
                    && wave_monster(self.store@[e].unwrap(), e - s0.len() < orcs_for(round)),
            decreases positions@.len() - i,
        {
            let (x, y) = positions[i];
            if self.map.in_bounds(x, y) && self.map.get_entity(x, y).is_none() && self.store.len() < usize::MAX {
                let orc = orcs > 0;
                let rec = if orc {
                    orcs = orcs - 1;
                    configure_orc(x, y)
                } else {
                    configure_goblin(x, y)
                };
                let ghost sb = self.store@;
                let ghost mb = self.map;
                place(&mut self.store, &mut self.map, rec, x, y);
                proof {
                    lemma_push_drawn(sb, rec);
                    assert(wave_monster(rec, orc));
                    assert forall|k: int| i + 1 <= k < positions@.len() implies self.map.in_map((#[trigger] positions@[k]).0 as int, positions@[k].1 as int)
                        && self.map.cell(positions@[k].0 as int, positions@[k].1 as int).is_none() by {
                        assert(positions@[k] != positions@[i as int]);
                    }
                    assert forall|e: int| #[trigger] live(self.store@, e) implies self.store@[e].unwrap().attacking.is_none()
                        && self.store@[e].unwrap().moving.is_none()
                        && (self.store@[e].unwrap().health.is_some() ==> self.store@[e].unwrap().health.unwrap().wf()
                            && self.store@[e].unwrap().health.unwrap().amount >= 1) by {
                        if e < sb.len() {
                            assert(live(sb, e));
                        }
                    }
                }
                proof {
                    assert forall|k: int| 0 <= k < i + 1 implies self.map.cell((#[trigger] positions@[k]).0 as int, positions@[k].1 as int).is_some()
                        || !(s0.len() + goal <= usize::MAX) by {
                        if k < i {
                            assert(positions@[k] != positions@[i as int]);
                            if s0.len() + goal <= usize::MAX {
                                assert(mb.cell(positions@[k].0 as int, positions@[k].1 as int).is_some());
                                assert(m0.in_map(positions@[k].0 as int, positions@[k].1 as int));
                                assert(self.map.in_map(positions@[k].0 as int, positions@[k].1 as int));
                                assert(self.map.cell(positions@[k].0 as int, positions@[k].1 as int) == mb.cell(positions@[k].0 as int, positions@[k].1 as int));
                            }
                        } else {
                            assert(positions@[k] == (x, y));
                            assert(self.map.cell(x as int, y as int).is_some());
                        }
                    }
                    assert forall|x2: int, y2: int| m0.in_map(x2, y2) && #[trigger] m0.cell(x2, y2).is_some() implies self.map.cell(x2, y2).is_some() by {
                        assert(mb.cell(x2, y2).is_some());
                    }
                }
                spawned = spawned + 1;
            } else {
                proof {
                    assert(!(s0.len() + goal <= usize::MAX));
                }
            }
            i = i + 1;
        }
        proof {
            if s0.len() + goal <= usize::MAX && spawned < goal {
                assert(i == positions@.len());
                assert(collected.len() < goal);
                assert(!free_cell(self.map)) by {
                    if free_cell(self.map) {
                        let (x, y) = choose|x: int, y: int| self.map.in_map(x, y) && #[trigger] self.map.cell(x, y).is_none();
                        assert(m0.in_map(x, y));
                        if m0.cell(x, y).is_none() {
                            assert(positions@.contains((x as i32, y as i32)));
                            let k = choose|k: int| 0 <= k < positions@.len() && positions@[k] == (x as i32, y as i32);
                            assert(self.map.cell(positions@[k].0 as int, positions@[k].1 as int).is_some());
                        }
                    }
                }
                assert forall|x: int, y: int| self.map.in_map(x, y) implies #[trigger] self.map.cell(x, y).is_some() by {
                    if m0.cell(x, y).is_none() {
                        assert(positions@.contains((x as i32, y as i32)));
                        let k = choose|k: int| 0 <= k < positions@.len() && positions@[k] == (x as i32, y as i32);
                        assert(self.map.cell(positions@[k].0 as int, positions@[k].1 as int).is_some());
                    }
                }
            }
        }
    }

    /// A new game: a 12 by 12 board with two houses and a few trees, and the first wave.
    pub fn new() -> (r: WorldState)
        ensures
            r.inv(),
            r.state() == RunState::PreRun,
            r.spec_round() == 1,
            r.spec_money() == 0,
            live(r.entities(), r.player() as int) && r.entities()[r.player() as int].unwrap().player,
            new_game(r),
    {
        WorldState::with_rng(entropy_rng())
    }

    /// A new game drawing its chances from `rng`.
    pub fn with_rng(rng: RandomNumberGenerator) -> (r: WorldState)
        ensures
            r.inv(),
            r.state() == RunState::PreRun,
            r.spec_round() == 1,
            r.spec_money() == 0,
            live(r.entities(), r.player() as int) && r.entities()[r.player() as int].unwrap().player,
            new_game(r),
    {
        let mut rng = rng;
        let mut store = Store::new();
        let mut generator = LevelGenerator::new(12, 12);
        let level = generator.generate(&mut rng, 2, 15);
        proof {
            reveal_with_fuel(fill_level, 16);
            assert(fill_level(8, 15, 144) == 22);
            lemma_count_inserts_witness(level@, LevelItem::Player { health: 5 });
        }
        let ghost lv = level@;
        let player = LevelGenerator::insert(&mut store, level);
        let mut map = GameMap::new(12, 12);
        proof {
            assert forall|e: int| #[trigger] pos_of(store@, e).is_some() implies map.in_map(pos_of(store@, e).unwrap().x as int,
                pos_of(store@, e).unwrap().y as int) by {
                assert(store@[e] == Some(inserted(lv[e])));
            }
            assert forall|e1: int, e2: int| e1 != e2 && #[trigger] pos_of(store@, e1).is_some() && #[trigger] pos_of(store@, e2).is_some()
                implies pos_of(store@, e1) != pos_of(store@, e2) by {
                assert(store@[e1] == Some(inserted(lv[e1])));
                assert(store@[e2] == Some(inserted(lv[e2])));
                if e1 < e2 {
                    assert(lv[e1].position != lv[e2].position);
                } else {
                    assert(lv[e2].position != lv[e1].position);
                }
            }
        }
        MapIndexingSystem.run(&mut map, &store);
        let player_entity = match player {
            Some(p) => p,
            None => 0,
        };
        let mut it = WorldState {
            store,
            map,
            run_state: RunState::PreRun,
            logs: Logs::new(),
            rng,
            generator,
            player_entity,
        };
        proof {
            let s = it.store@;
            assert forall|e: int| #[trigger] live(s, e) implies s[e].unwrap().attacking.is_none() && s[e].unwrap().moving.is_none()
                && (s[e].unwrap().health.is_some() ==> s[e].unwrap().health.unwrap().wf() && s[e].unwrap().health.unwrap().amount >= 1) by {
                assert(s[e] == Some(inserted(lv[e])));
                match lv[e].item {
                    LevelItem::Player { health } => {
                        assert(health >= 1);
                    },
                    _ => {},
                }
            }
            assert(s[player_entity as int] == Some(inserted(lv[player_entity as int])));
            assert forall|e: int| #[trigger] pos_of(s, e).is_some() implies s[e].unwrap().renderable.is_some() by {
                assert(s[e] == Some(inserted(lv[e])));
            }
            it.store.lemma_len_bound();
            lemma_rebuilt_indexes(it.map, s);
        }
        let ghost before_wave = it.store@;
        proof {
            assert(starting_level(lv));
            assert(before_wave.len() == 23);
        }
        it.spawn_monsters();
        proof {
            if it.store@.len() < 27 {
                lemma_small_world_has_room(it.map, it.store@);
            }
            assert(forall|i: int| 0 <= i < 23 ==> #[trigger] it.entities()[i] == Some(inserted(lv[i])));
            assert(orcs_for(1) == 0);
        }
        it
    }

    /// Queues a move of the player, where it is the player's turn and the move is allowed.
    pub fn player_move(&mut self, direction: Moving) -> (r: Result<(), MovementDenied>)
        requires
            old(self).inv(),
        ensures
            final(self).inv(),
            r == move_verdict(*old(self), direction),
            r.is_err() ==> *final(self) == *old(self),
            r.is_ok() ==> final(self).state() == RunState::PlayerTurn
                && final(self).entities() == old(self).entities().update(old(self).player() as int, Some(EntityRecord {
                    moving: Some(direction),
                    ..old(self).entities()[old(self).player() as int].unwrap()
                })),
            final(self).spec_round() == old(self).spec_round(),
            final(self).spec_money() == old(self).spec_money(),
            final(self).player() == old(self).player(),
    {
        if self.run_state != RunState::AwaitingInput {
            return Err(MovementDenied::NotPlayerTurn);
        }
        let rec = match self.store.get(self.player_entity) {
            Some(rec) => rec,
            None => {
                return Err(MovementDenied::GameOver);
            },
        };
        let position = match rec.position {
            Some(p) => p,
            None => {
                return Err(MovementDenied::GameOver);
            },
        };
        let dest = match position.after(&direction) {
            Some(q) => q,
            None => {
                proof {
                    self.map.lemma_dims();
                }
                return Err(MovementDenied::Impassable);
            },
        };
        if !self.map.in_bounds(dest.x, dest.y) {
            return Err(MovementDenied::Impassable);
        }
        if self.map.houses() == 0 {
            return Err(MovementDenied::GameOver);
        }
        if let Some(occupant) = self.map.get_entity(dest.x, dest.y) {
            if let Some(o) = self.store.get(occupant) {
                if o.town && !o.monster {
                    return Err(MovementDenied::Friendly);
                }
            }
        }
        let ghost s0 = self.store@;
        let mut r2 = rec;
        r2.moving = Some(direction);
        self.store.set(self.player_entity, r2);
        self.run_state = RunState::PlayerTurn;
        proof {
            assert forall|e: int| #[trigger] pos_of(self.store@, e) == pos_of(s0, e) by {
            }
            lemma_same_positions(self.map, s0, self.store@);
            assert forall|e: int| #[trigger] live(self.store@, e) implies self.store@[e].unwrap().attacking.is_none()
                && (self.store@[e].unwrap().health.is_some() ==> self.store@[e].unwrap().health.unwrap().wf() && self.store@[e].unwrap().health.unwrap().amount >= 1) by {
                assert(live(s0, e));
            }
            assert forall|e: int| #[trigger] live(self.store@, e) && self.store@[e].unwrap().moving.is_some()
                implies self.run_state == RunState::PlayerTurn && e == self.player_entity by {
                if e != self.player_entity {
                    assert(live(s0, e));
                    assert(s0[e].unwrap().moving.is_none());
                }
            }
        }
        Ok(())
    }

    /// Builds a wall (1 $) or a farm (2 $) on a free cell during the building phase; tells
    /// whether it did.
    pub fn player_build(&mut self, position: (i32, i32), what: Glyph) -> (r: bool)
        requires
            old(self).inv(),
        ensures
            final(self).inv(),
            r == build_allowed(*old(self), position, what),
            !r ==> *final(self) == *old(self),
            r ==> final(self).spec_money() == old(self).spec_money() - build_cost(what)
                && final(self).entities() == old(self).entities().push(Some(building(position.0, position.1, what,
                    if what == Glyph::Wall { 3u8 } else { 1u8 }))),
            final(self).state() == old(self).state(),
            final(self).spec_round() == old(self).spec_round(),
            final(self).player() == old(self).player(),
    {
        if self.run_state != RunState::BuildingTurn {
            return false;
        }
        let cost: u8 = match what {
            Glyph::Wall => 1,
            Glyph::Farm => 2,
            _ => {
                return false;
            },
        };
        if self.map.money() < cost {
            return false;
        }
        let (x, y) = position;
        if !self.map.in_bounds(x, y) || self.map.get_entity(x, y).is_some() || self.store.len() == usize::MAX {
            return false;
        }
        let money = self.map.money() - cost;
        self.map.set_money(money);
        let ghost m1 = self.map;
        proof {
            assert forall|x2: int, y2: int| self.map.in_map(x2, y2) implies #[trigger] self.map.cell(x2, y2) == old(self).map.cell(x2, y2) by {
            }
            assert forall|e: int| #[trigger] pos_of(self.store@, e).is_some() implies self.map.in_map(pos_of(self.store@, e).unwrap().x as int, pos_of(self.store@, e).unwrap().y as int)
                && self.map.cell(pos_of(self.store@, e).unwrap().x as int, pos_of(self.store@, e).unwrap().y as int) == Some(e as usize) by {
            }
            assert forall|x2: int, y2: int| self.map.in_map(x2, y2) && #[trigger] self.map.cell(x2, y2).is_some()
                implies pos_of(self.store@, self.map.cell(x2, y2).unwrap() as int) == Some(Position { x: x2 as i32, y: y2 as i32 }) by {
                assert(old(self).map.cell(x2, y2).is_some());
            }
        }
        let rec = match what {
            Glyph::Wall => configure_wall(x, y),
            _ => configure_farm(x, y),
        };
        let ghost sb = self.store@;
        place(&mut self.store, &mut self.map, rec, x, y);
        proof {
            lemma_push_drawn(sb, rec);
            assert forall|e: int| #[trigger] live(self.store@, e) implies self.store@[e].unwrap().attacking.is_none()
                && self.store@[e].unwrap().moving.is_none()
                && (self.store@[e].unwrap().health.is_some() ==> self.store@[e].unwrap().health.unwrap().wf() && self.store@[e].unwrap().health.unwrap().amount >= 1) by {
                if e < sb.len() {
                    assert(live(sb, e));
                    if sb[e].unwrap().moving.is_some() {
                        assert(self.run_state == RunState::PlayerTurn);
                    }
                }
            }
        }
        true
    }

    /// Ends the building phase: the next wave arrives and the state machine starts over.
    pub fn player_ready(&mut self)
        requires
            old(self).inv(),
        ensures
            final(self).inv(),
            old(self).state() != RunState::BuildingTurn ==> *final(self) == *old(self),
            old(self).state() == RunState::BuildingTurn ==> final(self).state() == RunState::PreRun
                && old(self).entities().len() <= final(self).entities().len() <= old(self).entities().len() + old(self).spec_round() + 3
                && (forall|e: int| 0 <= e < old(self).entities().len() ==> #[trigger] final(self).entities()[e] == old(self).entities()[e])
                && (forall|e: int| old(self).entities().len() <= e < final(self).entities().len() ==> (#[trigger] final(self).entities()[e]).is_some()
                    && final(self).entities()[e].unwrap().monster)
                && (old(self).entities().len() + old(self).spec_round() + 3 <= usize::MAX ==>
                    final(self).entities().len() == old(self).entities().len() + old(self).spec_round() + 3 || !free_cell(final(self).board())),
            final(self).spec_round() == old(self).spec_round(),
            final(self).spec_money() == old(self).spec_money(),
            final(self).player() == old(self).player(),
    {
        if self.run_state != RunState::BuildingTurn {
            return;
        }
        proof {
            assert forall|e: int| #[trigger] live(self.store@, e) implies self.store@[e].unwrap().moving.is_none() by {
                if self.store@[e].unwrap().moving.is_some() {
                    assert(self.run_state == RunState::PlayerTurn);
                }
            }
        }
        let ghost s0 = self.store@;
        self.spawn_monsters();
        self.run_state = RunState::PreRun;
        proof {
            assert forall|e: int| s0.len() <= e < self.store@.len() implies (#[trigger] self.store@[e]).is_some() && self.store@[e].unwrap().monster by {
                let orc = e - s0.len() < orcs_for(old(self).map.spec_round());
                let (x, y) = choose|x: i32, y: i32| self.store@[e].unwrap() == if orc { monster(x, y, Glyph::Orc, 2, AI::PrioritizePlayer) } else {
                    monster(x, y, Glyph::Goblin, 1, AI::PrioritizeTown)
                };
            }
        }
    }

    /// The entities with a position, a glyph and health, as they are drawn.
    pub fn to_render(&self) -> (r: Vec<DrawEntity>)
        requires
            self.inv(),
        ensures
            r@ == drawables(self.entities(), self.entities().len() as int),
    {
        let n = self.store.len();
        let mut out: Vec<DrawEntity> = Vec::new();
        let mut e: usize = 0;
        while e < n
            invariant
                self.store.wf(),
                n == self.store@.len(),
                e <= n,
                out@ == drawables(self.store@, e as int),
            decreases n - e,
        {
            if let Some(rec) = self.store.get(e) {
                if let (Some(p), Some(rd), Some(h)) = (rec.position, rec.renderable, rec.health) {
                    out.push(DrawEntity { x: p.x, y: p.y, glyph: rd.glyph, hp: (h.amount, h.maximum) });
                }
            }
            e = e + 1;
        }
        out
    }

    /// Returns the combat log gathered since the last call, and empties it.
    pub fn get_logs(&mut self) -> (r: Vec<LogMessage>)
        requires
            old(self).inv(),
        ensures
            final(self).inv(),
            r@ == old(self).spec_logs(),
            final(self).spec_logs() == Seq::<LogMessage>::empty(),
            final(self).entities() == old(self).entities(),
            final(self).state() == old(self).state(),
            final(self).spec_round() == old(self).spec_round(),
            final(self).spec_money() == old(self).spec_money(),
            final(self).player() == old(self).player(),
    {
        self.logs.flush()
    }

    /// The figures shown to the player.
    pub fn get_stats(&self) -> (r: GameStats)
        requires
            self.inv(),
        ensures
            r == stats_of(*self),
    {
        let health = match self.store.get(self.player_entity) {
            Some(rec) => match rec.health {
                Some(h) => (h.amount, h.maximum),
                None => (0u8, 0u8),
            },
            None => (0u8, 0u8),
        };
        let houses = self.map.houses();
        let state = if health.0 == 0 || houses == 0 {
            GameState::GameOver
        } else {
            match self.run_state {
                RunState::BuildingTurn => GameState::WaitingForBuild,
                _ => GameState::DefendingTheRealm,
            }
        };
        GameStats { round: self.map.round(), health, money: self.map.money(), farms: self.map.farms(), houses, state }
    }

    /// A game on a prepared board holding `entities` (ids in their order), at round 1 with no
    /// money; the player is the first record with the player marker. `None` where the board
    /// size is out of range, a record is off the board, has a pending intent or no health
    /// left, two records share a cell, or no record is a player.
    pub fn from_entities(width: usize, height: usize, entities: Vec<EntityRecord>, rng: RandomNumberGenerator) -> (r: Option<WorldState>)
        ensures
            r.is_some() <==> acceptable_board(width, height, entities@),
            r.is_some() ==> r.unwrap().inv()
                && r.unwrap().state() == RunState::PreRun
                && r.unwrap().spec_round() == 1
                && r.unwrap().spec_money() == 0
                && r.unwrap().entities().len() == entities@.len()
                && (forall|e: int| 0 <= e < entities@.len() ==> #[trigger] r.unwrap().entities()[e] == Some(entities@[e]))
                && r.unwrap().player() as int == first_player_record(entities@, entities@.len() as int).unwrap(),
    {
        if width == 0 || height == 0 || width > i32::MAX as usize || height > i32::MAX as usize {
            return None;
        }
        let area = match width.checked_mul(height) {
            Some(a) => a,
            None => {
                return None;
            },
        };
        let mut store = Store::new();
        let mut map = GameMap::new(width, height);
        let mut player: Option<EntityId> = None;
        let mut i: usize = 0;
        while i < entities.len()
            invariant
                0 < width <= i32::MAX,
                0 < height <= i32::MAX,
                area == width * height,
                store.wf(),
                map.wf(),
                map.spec_width() == width,
                map.spec_height() == height,
                map.spec_round() == 1,
                map.spec_money() == 0,
                indexes(map, store@),
                i <= entities@.len(),
                store@.len() == i,
                forall|e: int| 0 <= e < i ==> #[trigger] store@[e] == Some(entities@[e]),
                forall|k: int| 0 <= k < i ==> placeable(#[trigger] entities@[k], width as int, height as int),
                positioned_drawn(store@),
                forall|k: int, j: int| 0 <= k < j < i ==> #[trigger] entities@[k].position != #[trigger] entities@[j].position,
                player.is_some() == first_player_record(entities@, i as int).is_some(),
                player.is_some() ==> player.unwrap() as int == first_player_record(entities@, i as int).unwrap(),
            decreases entities@.len() - i,
        {
            let rec = entities[i];
            let ok_health = match rec.health {
                Some(h) => h.maximum >= 1 && h.amount <= h.maximum && h.amount >= 1,
                None => true,
            };
            let p = match rec.position {
                Some(p) => p,
                None => {
                    return None;
                },
            };
            if rec.moving.is_some() || rec.attacking.is_some() || rec.renderable.is_none() || !ok_health || !map.in_bounds(p.x, p.y) {
                return None;
            }
            if map.get_entity(p.x, p.y).is_some() {
                proof {
                    let c = map.cell(p.x as int, p.y as int).unwrap() as int;
                    assert(pos_of(store@, c) == Some(p));
                    assert(store@[c] == Some(entities@[c]));
                    assert(entities@[c].position == entities@[i as int].position);
                }
                return None;
            }
            proof {
                store.lemma_len_bound();
            }
            let ghost sb = store@;
            let id = place(&mut store, &mut map, rec, p.x, p.y);
            proof {
                lemma_push_drawn(sb, rec);
            }
            if player.is_none() && rec.player {
                player = Some(id);
            }
            proof {
                assert(store@[i as int] == Some(rec));
                assert(pos_of(store@, i as int) == Some(p));
                assert(map.cell(p.x as int, p.y as int) == Some(i));
                assert forall|k: int, j: int| 0 <= k < j < i + 1 implies #[trigger] entities@[k].position != #[trigger] entities@[j].position by {
                    if j < i {
                        assert(entities@[k].position != entities@[j].position);
                    } else {
                        assert(store@[k] == Some(entities@[k]));
                        assert(pos_of(store@, k) == entities@[k].position);
                        let pk = entities@[k].position.unwrap();
                        assert(map.cell(pk.x as int, pk.y as int) == Some(k as usize));
                    }
                }
            }
            i = i + 1;
        }
        let player_entity = match player {
            Some(p) => p,
            None => {
                return None;
            },
        };
        let ghost n = entities@.len();
        let w = WorldState {
            store,
            map,
            run_state: RunState::PreRun,
            logs: Logs::new(),
            rng,
            generator: LevelGenerator::new(width, height),
            player_entity,
        };
        proof {
            assert(entities@.take(n as int) =~= entities@);
            let s = w.store@;
            assert forall|e: int| #[trigger] live(s, e) implies s[e].unwrap().attacking.is_none()
                && (s[e].unwrap().health.is_some() ==> s[e].unwrap().health.unwrap().wf() && s[e].unwrap().health.unwrap().amount >= 1) by {
                assert(placeable(entities@[e], width as int, height as int));
            }
            assert forall|e: int| #[trigger] live(s, e) && s[e].unwrap().moving.is_some()
                implies w.run_state == RunState::PlayerTurn && e == w.player_entity by {
                assert(placeable(entities@[e], width as int, height as int));
            }
        }
        Some(w)
    }

    /// The state machine's current state.
    pub fn run_state(&self) -> (r: RunState)
        ensures
            r == self.state(),
    {
        self.run_state
    }

    /// The components of entity `e`, if it lives.
    pub fn entity(&self, e: EntityId) -> (r: Option<EntityRecord>)
        requires
            self.inv(),
        ensures
            r == (if e < self.entities().len() { self.entities()[e as int] } else { None }),
    {
        self.store.get(e)
    }

    /// The id of the player's entity.
    pub fn player_entity(&self) -> (r: EntityId)
        ensures
            r == self.player(),
    {
        self.player_entity
    }

    /// Who stands on `(x, y)`; `None` off the board.
    pub fn occupant(&self, x: i32, y: i32) -> (r: Option<EntityId>)
        requires
            self.inv(),
        ensures
            r == (if self.board().in_map(x as int, y as int) { self.board().cell(x as int, y as int) } else { None }),
    {
        self.map.get_entity(x, y)
    }
}

/// What `player_move` answers.
pub open spec fn move_verdict(w: WorldState, d: Moving) -> Result<(), MovementDenied> {
    let s = w.entities();
    let p = w.player() as int;
    if w.state() != RunState::AwaitingInput {
        Err(MovementDenied::NotPlayerTurn)
    } else if pos_of(s, p).is_none() {
        Err(MovementDenied::GameOver)
    } else if !w.board().in_map(step(pos_of(s, p).unwrap(), d).0, step(pos_of(s, p).unwrap(), d).1) {
        Err(MovementDenied::Impassable)
    } else if w.spec_houses() == 0 {
        Err(MovementDenied::GameOver)
    } else if w.board().cell(step(pos_of(s, p).unwrap(), d).0, step(pos_of(s, p).unwrap(), d).1).is_some()
        && live(s, w.board().cell(step(pos_of(s, p).unwrap(), d).0, step(pos_of(s, p).unwrap(), d).1).unwrap() as int)
        && s[w.board().cell(step(pos_of(s, p).unwrap(), d).0, step(pos_of(s, p).unwrap(), d).1).unwrap() as int].unwrap().town
        && !s[w.board().cell(step(pos_of(s, p).unwrap(), d).0, step(pos_of(s, p).unwrap(), d).1).unwrap() as int].unwrap().monster {
        Err(MovementDenied::Friendly)
    } else {
        Ok(())
    }
}

/// The price of a building.
pub open spec fn build_cost(what: Glyph) -> int {
    if what == Glyph::Wall { 1 } else { 2 }
}

/// Whether `player_build` builds.
pub open spec fn build_allowed(w: WorldState, position: (i32, i32), what: Glyph) -> bool {
    &&& w.state() == RunState::BuildingTurn
    &&& (what == Glyph::Wall || what == Glyph::Farm)
    &&& w.spec_money() >= build_cost(what)
    &&& w.board().in_map(position.0 as int, position.1 as int)
    &&& w.board().cell(position.0 as int, position.1 as int).is_none()
    &&& w.entities().len() < usize::MAX
}

/// The drawable entities among the first `n`, in id order.
pub open spec fn drawables(s: Seq<Option<EntityRecord>>, n: int) -> Seq<DrawEntity>
    decreases n,
{
    if n <= 0 {
        Seq::empty()
    } else if live(s, n - 1) && s[n - 1].unwrap().position.is_some() && s[n - 1].unwrap().renderable.is_some()
        && s[n - 1].unwrap().health.is_some() {
        let r = s[n - 1].unwrap();
        drawables(s, n - 1).push(DrawEntity {
            x: r.position.unwrap().x,
            y: r.position.unwrap().y,
            glyph: r.renderable.unwrap().glyph,
            hp: (r.health.unwrap().amount, r.health.unwrap().maximum),
        })
    } else {
        drawables(s, n - 1)
    }
}

/// The figures that `get_stats` reports: the game is over once the player has no health left
/// or no house stands.
pub open spec fn stats_of(w: WorldState) -> GameStats {
    let s = w.entities();
    let p = w.player() as int;
    let health = if live(s, p) && s[p].unwrap().health.is_some() {
        (s[p].unwrap().health.unwrap().amount, s[p].unwrap().health.unwrap().maximum)
    } else {
        (0u8, 0u8)
    };
    GameStats {
        round: w.spec_round(),
        health,
        money: w.spec_money(),
        farms: w.spec_farms(),
        houses: w.spec_houses(),
        state: if health.0 == 0 || w.spec_houses() == 0 {
            GameState::GameOver
        } else if w.state() == RunState::BuildingTurn {
            GameState::WaitingForBuild
        } else {
            GameState::DefendingTheRealm
        },
    }
}

/// No two entities of a world share a cell.
pub proof fn lemma_no_double_occupancy(w: WorldState)
    requires
        w.inv(),
    ensures
        positions_distinct(w.entities()),
{
    w.lemma_entities_indexed();
}

} // verus!
