//! The spatial index: which entity stands on each cell, plus the round and economy counters.
use vstd::prelude::*;
use crate::components::{EntityId, Glyph, Position};
use crate::store::{EntityRecord, Store};

verus! {

pub struct GameMap {
    /// One entry per cell, row by row.
    entities: Vec<Option<EntityId>>,
    /// Round number, starting at 1.
    round: u8,
    /// Amount of $ for the player.
    money: u8,
    width: usize,
    height: usize,
    /// Farms standing when the index was last rebuilt (at most `u8::MAX`).
    farms: u8,
    /// Houses standing when the index was last rebuilt (at most `u8::MAX`).
    houses: u8,
}

/// The position of entity `e`, if it lives and has one.
pub open spec fn pos_of(s: Seq<Option<EntityRecord>>, e: int) -> Option<Position> {
    if 0 <= e < s.len() && s[e].is_some() {
        s[e].unwrap().position
    } else {
        None
    }
}

/// No two living entities share a cell.
pub open spec fn positions_distinct(s: Seq<Option<EntityRecord>>) -> bool {
    forall|e1: int, e2: int| e1 != e2 && #[trigger] pos_of(s, e1).is_some() && #[trigger] pos_of(s, e2).is_some()
        ==> pos_of(s, e1) != pos_of(s, e2)
}

/// The number of living entities among the first `n` ids with a position and glyph `g`.
pub open spec fn count_glyph(s: Seq<Option<EntityRecord>>, g: Glyph, n: int) -> nat
    decreases n,
{
    if n <= 0 {
        0
    } else {
        count_glyph(s, g, n - 1) + if pos_of(s, n - 1).is_some() && s[n - 1].unwrap().renderable.is_some()
            && s[n - 1].unwrap().renderable.unwrap().glyph == g { 1nat } else { 0nat }
    }
}

/// Entity `e` lives with a position and a glyph, so the index records it.
pub open spec fn indexed(s: Seq<Option<EntityRecord>>, e: int) -> bool {
    pos_of(s, e).is_some() && s[e].unwrap().renderable.is_some()
}

/// The last of the first `n` indexed entities that stands on `(x, y)`.
pub open spec fn last_at(s: Seq<Option<EntityRecord>>, x: int, y: int, n: int) -> Option<EntityId>
    decreases n,
{
    if n <= 0 {
        None
    } else if indexed(s, n - 1) && pos_of(s, n - 1) == Some(Position { x: x as i32, y: y as i32 }) {
        Some((n - 1) as usize)
    } else {
        last_at(s, x, y, n - 1)
    }
}

/// What `last_at` names stands on that cell.
pub proof fn lemma_last_at_sound(s: Seq<Option<EntityRecord>>, x: int, y: int, n: int)
    requires
        n <= s.len(),
        s.len() <= usize::MAX,
        last_at(s, x, y, n).is_some(),
    ensures
        indexed(s, last_at(s, x, y, n).unwrap() as int),
        0 <= last_at(s, x, y, n).unwrap() < n,
        pos_of(s, last_at(s, x, y, n).unwrap() as int) == Some(Position { x: x as i32, y: y as i32 }),
    decreases n,
{
    if !(indexed(s, n - 1) && pos_of(s, n - 1) == Some(Position { x: x as i32, y: y as i32 })) {
        lemma_last_at_sound(s, x, y, n - 1);
    }
}

/// Where no two entities share a cell, `last_at` names the one entity on it.
pub proof fn lemma_last_at_unique(s: Seq<Option<EntityRecord>>, x: int, y: int, n: int, e: int)
    requires
        positions_distinct(s),
        0 <= e < n <= s.len(),
        s.len() <= usize::MAX,
        indexed(s, e),
        pos_of(s, e) == Some(Position { x: x as i32, y: y as i32 }),
    ensures
        last_at(s, x, y, n) == Some(e as usize),
    decreases n,
{
    if n - 1 != e {
        if pos_of(s, n - 1).is_some() {
            assert(pos_of(s, n - 1) != pos_of(s, e));
        }
        lemma_last_at_unique(s, x, y, n - 1, e);
    }
}

/// `n`, stopping at `u8::MAX`.
pub open spec fn saturate(n: nat) -> u8 {
    if n < 255 { n as u8 } else { 255u8 }
}

/// The map records exactly the cells of the living entities that have a position.
pub open spec fn indexes(map: GameMap, s: Seq<Option<EntityRecord>>) -> bool {
    &&& forall|e: int| #[trigger] pos_of(s, e).is_some() ==> map.in_map(pos_of(s, e).unwrap().x as int, pos_of(s, e).unwrap().y as int)
        && map.cell(pos_of(s, e).unwrap().x as int, pos_of(s, e).unwrap().y as int) == Some(e as usize)
    &&& forall|x: int, y: int| map.in_map(x, y) && #[trigger] map.cell(x, y).is_some()
        ==> pos_of(s, map.cell(x, y).unwrap() as int) == Some(Position { x: x as i32, y: y as i32 })
}

/// A map that indexes the store has at most one entity on each cell.
pub proof fn lemma_indexed_positions_distinct(map: GameMap, s: Seq<Option<EntityRecord>>)
    requires
        indexes(map, s),
        s.len() <= usize::MAX,
    ensures
        positions_distinct(s),
{
    assert forall|e1: int, e2: int| e1 != e2 && #[trigger] pos_of(s, e1).is_some() && #[trigger] pos_of(s, e2).is_some()
        implies pos_of(s, e1) != pos_of(s, e2) by {
        if pos_of(s, e1) == pos_of(s, e2) {
            let p = pos_of(s, e1).unwrap();
            assert(map.cell(p.x as int, p.y as int) == Some(e1 as usize));
            assert(map.cell(p.x as int, p.y as int) == Some(e2 as usize));
        }
    }
}

proof fn lemma_cell_index(w: int, h: int, x: int, y: int)
    requires
        0 <= x < w,
        0 <= y < h,
    ensures
        0 <= y * w + x < w * h,
{
    assert(0 <= y * w + x < w * h) by (nonlinear_arith)
        requires
            0 <= x < w,
            0 <= y < h,
    ;
}

proof fn lemma_cell_index_distinct(w: int, h: int, x1: int, y1: int, x2: int, y2: int)
    requires
        0 <= x1 < w,
        0 <= y1 < h,
        0 <= x2 < w,
        0 <= y2 < h,
        (x1, y1) != (x2, y2),
    ensures
        y1 * w + x1 != y2 * w + x2,
{
    if y1 == y2 {
    } else if y1 < y2 {
        assert(y1 * w + x1 < y2 * w + x2) by (nonlinear_arith)
            requires
                0 <= x1 < w,
                0 <= x2,
                y1 < y2,
        ;
    } else {
        assert(y2 * w + x2 < y1 * w + x1) by (nonlinear_arith)
            requires
                0 <= x2 < w,
                0 <= x1,
                y2 < y1,
        ;
    }
}

impl GameMap {
    pub closed spec fn spec_width(&self) -> usize {
        self.width
    }

    pub closed spec fn spec_height(&self) -> usize {
        self.height
    }

    pub closed spec fn spec_money(&self) -> u8 {
        self.money
    }

    pub closed spec fn spec_farms(&self) -> u8 {
        self.farms
    }

    pub closed spec fn spec_houses(&self) -> u8 {
        self.houses
    }

    /// Amount of $ for the player.
    #[verifier::when_used_as_spec(spec_money)]
    pub fn money(&self) -> (r: u8)
        ensures
            r == self.spec_money(),
    {
        self.money
    }

    /// Farms standing when the index was last rebuilt (at most `u8::MAX`).
    #[verifier::when_used_as_spec(spec_farms)]
    pub fn farms(&self) -> (r: u8)
        ensures
            r == self.spec_farms(),
    {
        self.farms
    }

    /// Houses standing when the index was last rebuilt (at most `u8::MAX`).
    #[verifier::when_used_as_spec(spec_houses)]
    pub fn houses(&self) -> (r: u8)
        ensures
            r == self.spec_houses(),
    {
        self.houses
    }

    /// Replaces the amount of $.
    pub fn set_money(&mut self, money: u8)
        requires
            old(self).wf(),
        ensures
            final(self).wf(),
            final(self).spec_money() == money,
            final(self).spec_width() == old(self).spec_width(),
            final(self).spec_height() == old(self).spec_height(),
            final(self).spec_round() == old(self).spec_round(),
            final(self).cells() == old(self).cells(),
            final(self).spec_farms() == old(self).spec_farms(),
            final(self).spec_houses() == old(self).spec_houses(),
    {
        self.money = money;
    }

    pub closed spec fn spec_round(&self) -> u8 {
        self.round
    }

    /// The cells, row by row.
    pub closed spec fn cells(&self) -> Seq<Option<EntityId>> {
        self.entities@
    }

    pub closed spec fn wf(&self) -> bool {
        &&& 0 < self.width <= i32::MAX
        &&& 0 < self.height <= i32::MAX
        &&& self.entities@.len() == self.width * self.height
        &&& self.width * self.height <= usize::MAX
        &&& self.round >= 1
    }

    /// The limits that every map keeps.
    pub proof fn lemma_dims(&self)
        requires
            self.wf(),
        ensures
            0 < self.spec_width() <= i32::MAX,
            0 < self.spec_height() <= i32::MAX,
            self.spec_width() * self.spec_height() <= usize::MAX,
            self.spec_round() >= 1,
    {
    }

    /// The limits of the board, for callers that only know the map's shape.
    pub proof fn lemma_dims_open(&self)
        ensures
            self.wf() ==> 0 < self.spec_width() <= i32::MAX && 0 < self.spec_height() <= i32::MAX,
    {
    }

    pub open spec fn in_map(&self, x: int, y: int) -> bool {
        0 <= x < self.spec_width() && 0 <= y < self.spec_height()
    }

    /// Who stands on cell `(x, y)`.
    pub open spec fn cell(&self, x: int, y: int) -> Option<EntityId> {
        self.cells()[y * self.spec_width() + x]
    }

    /// An empty map of the given size, at round 1 with no money.
    pub fn new(width: usize, height: usize) -> (r: GameMap)
        requires
            0 < width <= i32::MAX,
            0 < height <= i32::MAX,
            width * height <= usize::MAX,
        ensures
            r.wf(),
            r.spec_width() == width,
            r.spec_height() == height,
            r.spec_round() == 1,
            r.spec_money() == 0,
            r.spec_farms() == 0,
            r.spec_houses() == 0,
            forall|x: int, y: int| r.in_map(x, y) ==> #[trigger] r.cell(x, y) == None::<EntityId>,
    {
        let n = width * height;
        let mut entities: Vec<Option<EntityId>> = Vec::new();
        let mut i: usize = 0;
        while i < n
            invariant
                i <= n,
                entities@.len() == i,
                forall|k: int| 0 <= k < i ==> entities@[k].is_none(),
            decreases n - i,
        {
            entities.push(None);
            i = i + 1;
        }
        let r = GameMap { entities, round: 1, money: 0, width, height, farms: 0, houses: 0 };
        proof {
            assert forall|x: int, y: int| r.in_map(x, y) implies #[trigger] r.cell(x, y) == None::<EntityId> by {
                lemma_cell_index(width as int, height as int, x, y);
            }
        }
        r
    }

    /// Empties every cell.
    pub fn clear(&mut self)
        requires
            old(self).wf(),
        ensures
            final(self).wf(),
            final(self).spec_width() == old(self).spec_width(),
            final(self).spec_height() == old(self).spec_height(),
            final(self).spec_round() == old(self).spec_round(),
            final(self).spec_money() == old(self).spec_money(),
            final(self).spec_farms() == old(self).spec_farms(),
            final(self).spec_houses() == old(self).spec_houses(),
            forall|x: int, y: int| final(self).in_map(x, y) ==> #[trigger] final(self).cell(x, y) == None::<EntityId>,
    {
        let n = self.entities.len();
        let mut i: usize = 0;
        while i < n
            invariant
                i <= n,
                self.entities@.len() == n,
                n == old(self).entities@.len(),
                self.width == old(self).width,
                self.height == old(self).height,
                self.round == old(self).round,
                self.money == old(self).spec_money(),
                self.farms == old(self).spec_farms(),
                self.houses == old(self).spec_houses(),
                forall|k: int| 0 <= k < i ==> self.entities@[k].is_none(),
            decreases n - i,
        {
            self.entities.set(i, None);
            i = i + 1;
        }
        proof {
            assert forall|x: int, y: int| self.in_map(x, y) implies #[trigger] self.cell(x, y) == None::<EntityId> by {
                lemma_cell_index(self.width as int, self.height as int, x, y);
            }
        }
    }

    /// Whether `(x, y)` lies on the board.
    pub fn in_bounds(&self, x: i32, y: i32) -> (r: bool)
        requires
            self.wf(),
        ensures
            r == self.in_map(x as int, y as int),
    {
        x >= 0 && (x as usize) < self.width && y >= 0 && (y as usize) < self.height
    }

    /// Records `entity` on cell `(x, y)`.
    pub fn set_entity(&mut self, x: i32, y: i32, entity: EntityId)
        requires
            old(self).wf(),
            old(self).in_map(x as int, y as int),
        ensures
            final(self).wf(),
            final(self).spec_width() == old(self).spec_width(),
            final(self).spec_height() == old(self).spec_height(),
            final(self).spec_round() == old(self).spec_round(),
            final(self).spec_money() == old(self).spec_money(),
            final(self).spec_farms() == old(self).spec_farms(),
            final(self).spec_houses() == old(self).spec_houses(),
            final(self).cell(x as int, y as int) == Some(entity),
            forall|x2: int, y2: int| final(self).in_map(x2, y2) && (x2, y2) != (x as int, y as int)
                ==> #[trigger] final(self).cell(x2, y2) == old(self).cell(x2, y2),
    {
        self.put(x, y, Some(entity));
    }

    /// Empties cell `(x, y)`.
    pub fn clear_entity(&mut self, x: i32, y: i32)
        requires
            old(self).wf(),
            old(self).in_map(x as int, y as int),
        ensures
            final(self).wf(),
            final(self).spec_width() == old(self).spec_width(),
            final(self).spec_height() == old(self).spec_height(),
            final(self).spec_round() == old(self).spec_round(),
            final(self).spec_money() == old(self).spec_money(),
            final(self).spec_farms() == old(self).spec_farms(),
            final(self).spec_houses() == old(self).spec_houses(),
            final(self).cell(x as int, y as int).is_none(),
            forall|x2: int, y2: int| final(self).in_map(x2, y2) && (x2, y2) != (x as int, y as int)
                ==> #[trigger] final(self).cell(x2, y2) == old(self).cell(x2, y2),
    {
        self.put(x, y, None);
    }

    fn put(&mut self, x: i32, y: i32, v: Option<EntityId>)
        requires
            old(self).wf(),
            old(self).in_map(x as int, y as int),
        ensures
            final(self).wf(),
            final(self).width == old(self).width,
            final(self).height == old(self).height,
            final(self).round == old(self).round,
            final(self).spec_money() == old(self).spec_money(),
            final(self).spec_farms() == old(self).spec_farms(),
            final(self).spec_houses() == old(self).spec_houses(),
            final(self).cell(x as int, y as int) == v,
            forall|x2: int, y2: int| final(self).in_map(x2, y2) && (x2, y2) != (x as int, y as int)
                ==> #[trigger] final(self).cell(x2, y2) == old(self).cell(x2, y2),
    {
        proof {
            lemma_cell_index(self.width as int, self.height as int, x as int, y as int);
            assert((y as int) * (self.width as int) <= (y as int) * (self.width as int) + x);
        }
        let i = (y as usize) * self.width + (x as usize);
        self.entities.set(i, v);
        proof {
            assert forall|x2: int, y2: int| self.in_map(x2, y2) && (x2, y2) != (x as int, y as int)
                implies #[trigger] self.cell(x2, y2) == old(self).cell(x2, y2) by {
                lemma_cell_index(self.width as int, self.height as int, x2, y2);
                lemma_cell_index_distinct(self.width as int, self.height as int, x as int, y as int, x2, y2);
            }
        }
    }

    /// Who stands on `(x, y)`; `None` off the board.
    pub fn get_entity(&self, x: i32, y: i32) -> (r: Option<EntityId>)
        requires
            self.wf(),
        ensures
            r == (if self.in_map(x as int, y as int) { self.cell(x as int, y as int) } else { None }),
    {
        if !self.in_bounds(x, y) {
            return None;
        }
        proof {
            lemma_cell_index(self.width as int, self.height as int, x as int, y as int);
            assert((y as int) * (self.width as int) <= (y as int) * (self.width as int) + x);
        }
        self.entities[(y as usize) * self.width + (x as usize)]
    }

    #[verifier::when_used_as_spec(spec_width)]
    pub fn width(&self) -> (r: usize)
        ensures
            r == self.spec_width(),
    {
        self.width
    }

    #[verifier::when_used_as_spec(spec_height)]
    pub fn height(&self) -> (r: usize)
        ensures
            r == self.spec_height(),
    {
        self.height
    }

    #[verifier::when_used_as_spec(spec_round)]
    pub fn round(&self) -> (r: u8)
        ensures
            r == self.spec_round(),
    {
        self.round
    }

    /// Moves to the next round, stopping at `u8::MAX`.
    pub fn next_round(&mut self)
        requires
            old(self).wf(),
        ensures
            final(self).wf(),
            final(self).spec_round() == if old(self).spec_round() < 255 { old(self).spec_round() + 1 } else { 255 },
            final(self).spec_width() == old(self).spec_width(),
            final(self).spec_height() == old(self).spec_height(),
            final(self).cells() == old(self).cells(),
            final(self).spec_money() == old(self).spec_money(),
            final(self).spec_farms() == old(self).spec_farms(),
            final(self).spec_houses() == old(self).spec_houses(),
    {
        self.round = self.round.saturating_add(1);
    }
}

/// Rebuilds the spatial index and the farm and house counters from the store.
pub struct MapIndexingSystem;

impl MapIndexingSystem {
    /// Clears the map, then records, in id order, every entity with a position and a glyph on
    /// its cell (a later one overwrites an earlier one), and counts the farms and houses.
    pub fn run(&self, map: &mut GameMap, store: &Store)
        requires
            old(map).wf(),
            store.wf(),
            forall|e: int| #[trigger] indexed(store@, e) ==> old(map).in_map(pos_of(store@, e).unwrap().x as int,
                pos_of(store@, e).unwrap().y as int),
        ensures
            final(map).wf(),
            forall|x: int, y: int| final(map).in_map(x, y) ==> #[trigger] final(map).cell(x, y) == last_at(store@, x, y, store@.len() as int),
            final(map).spec_width() == old(map).spec_width(),
            final(map).spec_height() == old(map).spec_height(),
            final(map).spec_round() == old(map).spec_round(),
            final(map).spec_money() == old(map).spec_money(),
            final(map).spec_farms() == saturate(count_glyph(store@, Glyph::Farm, store@.len() as int)),
            final(map).spec_houses() == saturate(count_glyph(store@, Glyph::House, store@.len() as int)),
    {
        map.clear();
        let ghost s = store@;
        proof {
            store.lemma_len_bound();
        }
        let mut total_farms: u8 = 0;
        let mut total_houses: u8 = 0;
        let n = store.len();
        let mut e: usize = 0;
        while e < n
            invariant
                map.wf(),
                store.wf(),
                s == store@,
                n == s.len(),
                s.len() <= usize::MAX,
                e <= n,
                map.spec_width() == old(map).spec_width(),
                map.spec_height() == old(map).spec_height(),
                map.spec_round() == old(map).spec_round(),
                map.spec_money() == old(map).spec_money(),
                forall|e2: int| #[trigger] indexed(s, e2) ==> map.in_map(pos_of(s, e2).unwrap().x as int, pos_of(s, e2).unwrap().y as int),
                forall|x: int, y: int| map.in_map(x, y) ==> #[trigger] map.cell(x, y) == last_at(s, x, y, e as int),
                total_farms == saturate(count_glyph(s, Glyph::Farm, e as int)),
                total_houses == saturate(count_glyph(s, Glyph::House, e as int)),
            decreases n - e,
        {
            proof {
                map.lemma_dims();
            }
            if let Some(rec) = store.get(e) {
                if let (Some(p), Some(r)) = (rec.position, rec.renderable) {
                    let ghost m0 = *map;
                    proof {
                        assert(indexed(s, e as int));
                    }
                    map.set_entity(p.x, p.y, e);
                    proof {
                        assert forall|x: int, y: int| map.in_map(x, y) implies #[trigger] map.cell(x, y) == last_at(s, x, y, e + 1) by {
                            if (x, y) != (p.x as int, p.y as int) {
                                assert(m0.cell(x, y) == last_at(s, x, y, e as int));
                            }
                        }
                    }
                    match r.glyph {
                        Glyph::Farm => {
                            total_farms = total_farms.saturating_add(1);
                        },
                        Glyph::House => {
                            total_houses = total_houses.saturating_add(1);
                        },
                        _ => {},
                    }
                }
            }
            e = e + 1;
        }
        let ghost m1 = *map;
        map.farms = total_farms;
        map.houses = total_houses;
        proof {
            assert forall|x: int, y: int| map.in_map(x, y) implies #[trigger] map.cell(x, y) == last_at(s, x, y, s.len() as int) by {
                assert(m1.cell(x, y) == last_at(s, x, y, s.len() as int));
            }
        }
    }
}

} // verus!
