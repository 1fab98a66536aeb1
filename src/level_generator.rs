//! Procedural placement of the houses, farms, walls, trees and the player of a new level.
use vstd::prelude::*;
use vstd::seq_lib::group_to_multiset_ensures;
use bracket_lib::random::RandomNumberGenerator;
use crate::rng::rng_range;
use crate::components::EntityId;
use crate::demo::{building, body, configure_farm, configure_house, configure_player, configure_tree, configure_wall};
use crate::store::{EntityRecord, Store};

verus! {

/// What a level cell can hold.
#[derive(Clone, Copy, Debug, PartialEq, Eq, Structural)]
pub enum LevelItem {
    Player { health: u8 },
    Farm,
    House,
    Tree,
    Wall,
}

/// One placement of a generated level.
#[derive(Clone, Copy, Debug)]
pub struct LevelInsert {
    pub position: (u8, u8),
    pub item: LevelItem,
}

/// Places items on a board of fixed size.
pub struct LevelGenerator {
    width: usize,
    height: usize,
}

/// Rows of cells, `g[y][x]`.
pub type Grid = Vec<Vec<Option<LevelItem>>>;

/// The grid has `h` rows of `w` cells each.
pub open spec fn grid_wf(g: Seq<Vec<Option<LevelItem>>>, w: int, h: int) -> bool {
    &&& g.len() == h
    &&& forall|y: int| 0 <= y < h ==> #[trigger] g[y]@.len() == w
}

/// The content of cell `(x, y)`.
pub open spec fn at(g: Seq<Vec<Option<LevelItem>>>, x: int, y: int) -> Option<LevelItem> {
    g[y]@[x]
}

pub open spec fn in_board(x: int, y: int, w: int, h: int) -> bool {
    0 <= x < w && 0 <= y < h
}

/// Cell `(x, y)` is on the board and holds nothing.
pub open spec fn open_cell(g: Seq<Vec<Option<LevelItem>>>, w: int, h: int, x: int, y: int) -> bool {
    in_board(x, y, w, h) && at(g, x, y).is_none()
}

pub open spec fn has_open_cell(g: Seq<Vec<Option<LevelItem>>>, w: int, h: int) -> bool {
    exists|x: int, y: int| open_cell(g, w, h, x, y)
}

/// How many cells of a row equal `t`.
pub open spec fn count_row(row: Seq<Option<LevelItem>>, t: Option<LevelItem>) -> nat
    decreases row.len(),
{
    if row.len() == 0 {
        0
    } else {
        count_row(row.drop_last(), t) + if row.last() == t { 1nat } else { 0nat }
    }
}

/// How many cells of the grid equal `t`.
pub open spec fn count_grid(g: Seq<Vec<Option<LevelItem>>>, t: Option<LevelItem>) -> nat
    decreases g.len(),
{
    if g.len() == 0 {
        0
    } else {
        count_grid(g.drop_last(), t) + count_row(g.last()@, t)
    }
}

/// How many inserts place `k`.
pub open spec fn count_inserts(s: Seq<LevelInsert>, k: LevelItem) -> nat
    decreases s.len(),
{
    if s.len() == 0 {
        0
    } else {
        count_inserts(s.drop_last(), k) + if s.last().item == k { 1nat } else { 0nat }
    }
}

/// The `k`-th of the four points at distance `d` from `(x, y)` along one axis:
/// right, left, down, up.
pub open spec fn ring_point(x: int, y: int, d: int, k: int) -> (int, int) {
    if k == 0 {
        (x + d, y)
    } else if k == 1 {
        (x - d, y)
    } else if k == 2 {
        (x, y + d)
    } else {
        (x, y - d)
    }
}

/// `(rx, ry)` holds `of`, and its `k`-th axis point at distance `d` is an open cell.
pub open spec fn ring_hit(
    g: Seq<Vec<Option<LevelItem>>>,
    w: int,
    h: int,
    of: LevelItem,
    rx: int,
    ry: int,
    d: int,
    k: int,
) -> bool {
    &&& in_board(rx, ry, w, h)
    &&& at(g, rx, ry) == Some(of)
    &&& 0 <= k < 4
    &&& open_cell(g, w, h, ring_point(rx, ry, d, k).0, ring_point(rx, ry, d, k).1)
}

/// Some cell holding `of` has an open axis point at distance `d`.
pub open spec fn radius_hits(g: Seq<Vec<Option<LevelItem>>>, w: int, h: int, of: LevelItem, d: int) -> bool {
    exists|rx: int, ry: int, k: int| ring_hit(g, w, h, of, rx, ry, d, k)
}

/// The on-board neighbours of `(x, y)`, in the order left, right, up, down.
pub open spec fn neighbours(x: int, y: int, w: int, h: int) -> Seq<(usize, usize)> {
    let l = if x >= 1 { seq![((x - 1) as usize, y as usize)] } else { seq![] };
    let r = if x + 1 < w { seq![((x + 1) as usize, y as usize)] } else { seq![] };
    let u = if y >= 1 { seq![(x as usize, (y - 1) as usize)] } else { seq![] };
    let d = if y + 1 < h { seq![(x as usize, (y + 1) as usize)] } else { seq![] };
    l + r + u + d
}

/// Cell `(x, y)` holds `of` and one of its neighbours is open.
pub open spec fn guards_open(g: Seq<Vec<Option<LevelItem>>>, w: int, h: int, of: LevelItem, x: int, y: int) -> bool {
    &&& in_board(x, y, w, h)
    &&& at(g, x, y) == Some(of)
    &&& exists|k: int| 0 <= k < neighbours(x, y, w, h).len()
        && open_cell(g, w, h, #[trigger] neighbours(x, y, w, h)[k].0 as int, neighbours(x, y, w, h)[k].1 as int)
}

/// How many cells are filled once trees are added from `n` filled cells: one at a time until
/// the filled share reaches `density` percent, or the board is full.
pub open spec fn fill_level(n: int, density: int, total: int) -> int
    decreases total - n,
{
    if n >= total || n * 100 >= density * total {
        n
    } else {
        fill_level(n + 1, density, total)
    }
}

proof fn lemma_fill_level_bounds(n: int, density: int, total: int)
    requires
        n <= total,
    ensures
        n <= fill_level(n, density, total) <= total,
        density == 0 && n >= 0 ==> fill_level(n, density, total) == n,
        density == 100 ==> fill_level(n, density, total) == total,
    decreases total - n,
{
    if n >= total || n * 100 >= density * total {
        if density == 100 && n < total {
            assert(n * 100 < 100 * total) by (nonlinear_arith)
                requires
                    n < total,
            ;
        }
    } else {
        lemma_fill_level_bounds(n + 1, density, total);
    }
}

/// Every player on the grid has five health points.
pub open spec fn players_ok(g: Seq<Vec<Option<LevelItem>>>, w: int, h: int) -> bool {
    forall|x: int, y: int| in_board(x, y, w, h) ==> match #[trigger] at(g, x, y) {
        Some(LevelItem::Player { health }) => health == 5,
        _ => true,
    }
}

/// Some insert places something on cell `(x, y)`.
pub open spec fn placed_at(r: Seq<LevelInsert>, x: int, y: int) -> bool {
    exists|i: int| 0 <= i < r.len() && #[trigger] r[i].position == (x as u8, y as u8)
}

/// The cell counts of a grid under generation.
pub open spec fn tally(g: Seq<Vec<Option<LevelItem>>>, houses: int, farms: int, walls: int, trees: int, players: int, open: int) -> bool {
    &&& count_grid(g, Some(LevelItem::House)) == houses
    &&& count_grid(g, Some(LevelItem::Farm)) == farms
    &&& count_grid(g, Some(LevelItem::Wall)) == walls
    &&& count_grid(g, Some(LevelItem::Tree)) == trees
    &&& count_grid(g, Some(LevelItem::Player { health: 5 })) == players
    &&& count_grid(g, None) == open
}

/// The entity that a placement becomes.
pub open spec fn inserted(ins: LevelInsert) -> EntityRecord {
    let x = ins.position.0 as i32;
    let y = ins.position.1 as i32;
    match ins.item {
        LevelItem::Player { health } => EntityRecord { player: true, ..body(x, y, crate::components::Glyph::Player, health) },
        LevelItem::Farm => building(x, y, crate::components::Glyph::Farm, 1),
        LevelItem::House => building(x, y, crate::components::Glyph::House, 2),
        LevelItem::Wall => building(x, y, crate::components::Glyph::Wall, 3),
        LevelItem::Tree => body(x, y, crate::components::Glyph::Tree, 1),
    }
}

/// Every player placement has some health.
pub open spec fn players_alive(level: Seq<LevelInsert>) -> bool {
    forall|i: int| 0 <= i < level.len() ==> match #[trigger] level[i].item {
        LevelItem::Player { health } => health >= 1,
        _ => true,
    }
}

/// A kind that is counted at least once is placed somewhere.
pub proof fn lemma_count_inserts_witness(s: Seq<LevelInsert>, k: LevelItem)
    requires
        count_inserts(s, k) > 0,
    ensures
        exists|i: int| 0 <= i < s.len() && (#[trigger] s[i].item) == k,
    decreases s.len(),
{
    if s.last().item == k {
        assert(s[s.len() - 1].item == k);
    } else {
        lemma_count_inserts_witness(s.drop_last(), k);
        let i = choose|i: int| 0 <= i < s.drop_last().len() && (#[trigger] s.drop_last()[i].item) == k;
        assert(s[i].item == k);
    }
}

proof fn lemma_update_multiset<T>(s: Seq<T>, i: int, v: T)
    requires
        0 <= i < s.len(),
    ensures
        s.update(i, v).to_multiset() =~= s.to_multiset().remove(s[i]).insert(v),
{
    broadcast use group_to_multiset_ensures;
    let t = s.update(i, v);
    assert(t.remove(i) =~= s.remove(i));
    assert(t.contains(v)) by {
        assert(t[i] == v);
    }
    assert(t.to_multiset().count(v) > 0);
    assert(t.to_multiset() =~= t.to_multiset().remove(v).insert(v));
}

proof fn lemma_count_row_update(row: Seq<Option<LevelItem>>, x: int, v: Option<LevelItem>, t: Option<LevelItem>)
    requires
        0 <= x < row.len(),
    ensures
        count_row(row.update(x, v), t) + (if row[x] == t { 1int } else { 0int })
            == count_row(row, t) + (if v == t { 1int } else { 0int }),
    decreases row.len(),
{
    let r2 = row.update(x, v);
    if x == row.len() - 1 {
        assert(r2.drop_last() =~= row.drop_last());
    } else {
        assert(r2.drop_last() =~= row.drop_last().update(x, v));
        lemma_count_row_update(row.drop_last(), x, v, t);
    }
}

proof fn lemma_count_grid_update(g: Seq<Vec<Option<LevelItem>>>, y: int, row: Vec<Option<LevelItem>>, t: Option<LevelItem>)
    requires
        0 <= y < g.len(),
    ensures
        count_grid(g.update(y, row), t) + count_row(g[y]@, t) == count_grid(g, t) + count_row(row@, t),
    decreases g.len(),
{
    let g2 = g.update(y, row);
    if y == g.len() - 1 {
        assert(g2.drop_last() =~= g.drop_last());
    } else {
        assert(g2.drop_last() =~= g.drop_last().update(y, row));
        lemma_count_grid_update(g.drop_last(), y, row, t);
    }
}

proof fn lemma_row_witness(row: Seq<Option<LevelItem>>, t: Option<LevelItem>) -> (x: int)
    requires
        count_row(row, t) > 0,
    ensures
        0 <= x < row.len(),
        row[x] == t,
    decreases row.len(),
{
    if row.last() == t {
        row.len() - 1
    } else {
        lemma_row_witness(row.drop_last(), t)
    }
}

proof fn lemma_grid_witness(g: Seq<Vec<Option<LevelItem>>>, t: Option<LevelItem>) -> (p: (int, int))
    requires
        count_grid(g, t) > 0,
    ensures
        0 <= p.1 < g.len(),
        0 <= p.0 < g[p.1]@.len(),
        g[p.1]@[p.0] == t,
    decreases g.len(),
{
    if count_row(g.last()@, t) > 0 {
        let x = lemma_row_witness(g.last()@, t);
        (x, g.len() - 1)
    } else {
        lemma_grid_witness(g.drop_last(), t)
    }
}

/// A grid with an empty cell somewhere has an open cell.
proof fn lemma_open_from_count(g: Seq<Vec<Option<LevelItem>>>, w: int, h: int)
    requires
        grid_wf(g, w, h),
        count_grid(g, None) > 0,
    ensures
        has_open_cell(g, w, h),
{
    let p = lemma_grid_witness(g, None);
    assert(open_cell(g, w, h, p.0, p.1));
}

proof fn lemma_count_row_constant(row: Seq<Option<LevelItem>>, t: Option<LevelItem>)
    requires
        forall|x: int| 0 <= x < row.len() ==> row[x] == t,
    ensures
        count_row(row, t) == row.len(),
    decreases row.len(),
{
    if row.len() > 0 {
        lemma_count_row_constant(row.drop_last(), t);
    }
}

proof fn lemma_count_row_absent(row: Seq<Option<LevelItem>>, t: Option<LevelItem>)
    requires
        forall|x: int| 0 <= x < row.len() ==> row[x] != t,
    ensures
        count_row(row, t) == 0,
    decreases row.len(),
{
    if row.len() > 0 {
        lemma_count_row_absent(row.drop_last(), t);
    }
}

/// Writes `item` into cell `(x, y)`.
fn set_cell(grid: &mut Grid, x: usize, y: usize, item: Option<LevelItem>, Ghost(w): Ghost<int>, Ghost(h): Ghost<int>)
    requires
        grid_wf(old(grid)@, w, h),
        in_board(x as int, y as int, w, h),
    ensures
        grid_wf(final(grid)@, w, h),
        at(final(grid)@, x as int, y as int) == item,
        forall|x2: int, y2: int| in_board(x2, y2, w, h) && (x2, y2) != (x as int, y as int)
            ==> at(final(grid)@, x2, y2) == at(old(grid)@, x2, y2),
        forall|t: Option<LevelItem>| #[trigger] count_grid(final(grid)@, t) + (if at(old(grid)@, x as int, y as int) == t { 1int } else { 0int })
            == count_grid(old(grid)@, t) + (if item == t { 1int } else { 0int }),
{
    let ghost g0 = grid@;
    let ghost r0 = grid@[y as int]@;
    grid[y].set(x, item);
    proof {
        assert(grid@ =~= g0.update(y as int, grid@[y as int]));
        assert(grid@[y as int]@ =~= r0.update(x as int, item));
        assert forall|x2: int, y2: int| in_board(x2, y2, w, h) && (x2, y2) != (x as int, y as int)
            implies at(grid@, x2, y2) == at(g0, x2, y2) by {
            if y2 != y as int {
                assert(grid@[y2] == g0[y2]);
            }
        }
        assert forall|t: Option<LevelItem>| #[trigger] count_grid(grid@, t) + (if at(g0, x as int, y as int) == t { 1int } else { 0int })
            == count_grid(g0, t) + (if item == t { 1int } else { 0int }) by {
            lemma_count_row_update(r0, x as int, item, t);
            lemma_count_grid_update(g0, y as int, grid@[y as int], t);
        }
    }
}

/// Whether a cell holds exactly `of`.
fn cell_is(c: &Option<LevelItem>, of: &LevelItem) -> (r: bool)
    ensures
        r == (*c == Some(*of)),
{
    match c {
        Some(it) => *it == *of,
        None => false,
    }
}

/// The `k`-th axis point at distance `d` from `(x, y)`, where it lies on a `w` by `h` board.
fn ring_candidate(x: usize, y: usize, d: usize, k: usize, w: usize, h: usize) -> (r: Option<(usize, usize)>)
    requires
        k < 4,
    ensures
        r.is_some() <==> in_board(ring_point(x as int, y as int, d as int, k as int).0, ring_point(x as int, y as int, d as int, k as int).1, w as int, h as int),
        r.is_some() ==> r.unwrap().0 as int == ring_point(x as int, y as int, d as int, k as int).0
            && r.unwrap().1 as int == ring_point(x as int, y as int, d as int, k as int).1,
{
    if k == 0 {
        if x < w && d < w - x && y < h { Some((x + d, y)) } else { None }
    } else if k == 1 {
        if d <= x && x - d < w && y < h { Some((x - d, y)) } else { None }
    } else if k == 2 {
        if y < h && d < h - y && x < w { Some((x, y + d)) } else { None }
    } else {
        if d <= y && y - d < h && x < w { Some((x, y - d)) } else { None }
    }
}

/// Exchanges the items at `i` and `j`.
pub fn swap_step<T: Copy>(items: &mut Vec<T>, i: usize, j: usize)
    requires
        i < old(items)@.len(),
        j < old(items)@.len(),
    ensures
        final(items)@ == old(items)@.update(i as int, old(items)@[j as int]).update(j as int, old(items)@[i as int]),
{
    let a = items[i];
    let b = items[j];
    items.set(i, b);
    items.set(j, a);
}

impl LevelGenerator {
    pub closed spec fn spec_width(&self) -> usize {
        self.width
    }

    pub closed spec fn spec_height(&self) -> usize {
        self.height
    }

    /// A generator for a board of the given size; both must be positive.
    pub fn new(width: usize, height: usize) -> (r: LevelGenerator)
        requires
            width > 0,
            height > 0,
        ensures
            r.spec_width() == width,
            r.spec_height() == height,
    {
        LevelGenerator { width, height }
    }

    #[verifier::when_used_as_spec(spec_width)]
    pub fn width(&self) -> (r: usize)
        ensures
            r == self.spec_width(),
    {
        self.width
    }

    #[verifier::when_used_as_spec(spec_height)]
    pub fn height(&self) -> (r: usize)
        ensures
            r == self.spec_height(),
    {
        self.height
    }

    /// Reorders `items` at random: each position in turn is swapped with a random one.
    pub fn shuffle<T: Copy>(&mut self, rng: &mut RandomNumberGenerator, items: &mut Vec<T>)
        ensures
            final(items)@.len() == old(items)@.len(),
            final(items)@.to_multiset() == old(items)@.to_multiset(),
            *final(self) == *old(self),
    {
        let n = items.len();
        let mut i: usize = 0;
        while i < n
            invariant
                items@.len() == n,
                items@.to_multiset() == old(items)@.to_multiset(),
                i <= n,
            decreases n - i,
        {
            let j = rng_range(rng, 0, n);
            let ghost s0 = items@;
            swap_step(items, i, j);
            proof {
                let a = s0[i as int];
                let b = s0[j as int];
                let s1 = s0.update(i as int, b);
                lemma_update_multiset(s0, i as int, b);
                lemma_update_multiset(s1, j as int, a);
                assert(s1[j as int] == b);
                broadcast use group_to_multiset_ensures;
                assert(s0.contains(a)) by {
                    assert(s0[i as int] == a);
                }
                let m0 = s0.to_multiset();
                assert(m0.remove(a).insert(b).remove(b) =~= m0.remove(a));
                assert(m0.remove(a).insert(a) =~= m0);
                assert(items@.to_multiset() =~= s0.to_multiset());
            }
            i = i + 1;
        }
    }

    /// The cells that hold `of`, in random order.
    fn all_items_of_type_shuffled(&mut self, rng: &mut RandomNumberGenerator, of: &LevelItem, grid: &Grid) -> (r: Vec<(usize, usize)>)
        requires
            grid_wf(grid@, old(self).width as int, old(self).height as int),
        ensures
            *final(self) == *old(self),
            forall|p: (usize, usize)| r@.contains(p) <==> (in_board(p.0 as int, p.1 as int, old(self).width as int, old(self).height as int)
                && at(grid@, p.0 as int, p.1 as int) == Some(*of)),
    {
        let mut positions: Vec<(usize, usize)> = Vec::new();
        let mut y: usize = 0;
        while y < self.height
            invariant
                grid_wf(grid@, self.width as int, self.height as int),
                y <= self.height,
                forall|p: (usize, usize)| positions@.contains(p) <==> (in_board(p.0 as int, p.1 as int, self.width as int, y as int)
                    && at(grid@, p.0 as int, p.1 as int) == Some(*of)),
            decreases self.height - y,
        {
            let mut x: usize = 0;
            while x < self.width
                invariant
                    grid_wf(grid@, self.width as int, self.height as int),
                    y < self.height,
                    x <= self.width,
                    forall|p: (usize, usize)| positions@.contains(p) <==> ((in_board(p.0 as int, p.1 as int, self.width as int, y as int)
                        || (p.1 == y && p.0 < x)) && at(grid@, p.0 as int, p.1 as int) == Some(*of)),
                decreases self.width - x,
            {
                let ghost before = positions@;
                if cell_is(&grid[y][x], of) {
                    positions.push((x, y));
                    proof {
                        assert(positions@[before.len() as int] == (x, y));
                        assert forall|p: (usize, usize)| before.contains(p) implies positions@.contains(p) by {
                            let k = choose|k: int| 0 <= k < before.len() && before[k] == p;
                            assert(positions@[k] == p);
                        }
                        assert forall|p: (usize, usize)| positions@.contains(p) && p != (x, y) implies before.contains(p) by {
                            let k = choose|k: int| 0 <= k < positions@.len() && positions@[k] == p;
                            assert(before[k] == p);
                        }
                    }
                }
                proof {
                    assert forall|p: (usize, usize)| positions@.contains(p) <==> ((in_board(p.0 as int, p.1 as int, self.width as int, y as int)
                        || (p.1 == y && p.0 < x + 1)) && at(grid@, p.0 as int, p.1 as int) == Some(*of)) by {
                        if p == (x, y) {
                        } else {
                            assert(positions@.contains(p) == before.contains(p));
                        }
                    }
                }
                x = x + 1;
            }
            proof {
                assert forall|p: (usize, usize)| positions@.contains(p) <==> (in_board(p.0 as int, p.1 as int, self.width as int, y + 1)
                    && at(grid@, p.0 as int, p.1 as int) == Some(*of)) by {
                    if positions@.contains(p) {
                    }
                }
            }
            y = y + 1;
        }
        let ghost before = positions@;
        self.shuffle(rng, &mut positions);
        proof {
            broadcast use group_to_multiset_ensures;
            assert forall|p: (usize, usize)| positions@.contains(p) <==> before.contains(p) by {
                assert(positions@.to_multiset().count(p) == before.to_multiset().count(p));
            }
            assert forall|p: (usize, usize)| positions@.contains(p) <==> (in_board(p.0 as int, p.1 as int, self.width as int, self.height as int)
                && at(grid@, p.0 as int, p.1 as int) == Some(*of)) by {
                assert(positions@.contains(p) <==> before.contains(p));
            }
        }
        positions
    }

    /// A random open cell of the board.
    fn find_any_open_position(&mut self, rng: &mut RandomNumberGenerator, grid: &Grid) -> (r: (usize, usize))
        requires
            grid_wf(grid@, old(self).width as int, old(self).height as int),
            has_open_cell(grid@, old(self).width as int, old(self).height as int),
        ensures
            *final(self) == *old(self),
            open_cell(grid@, old(self).width as int, old(self).height as int, r.0 as int, r.1 as int),
    {
        let ghost w = self.width as int;
        let ghost h = self.height as int;
        let mut positions: Vec<(usize, usize)> = Vec::new();
        let mut y: usize = 0;
        while y < self.height
            invariant
                grid_wf(grid@, w, h),
                w == self.width,
                h == self.height,
                y <= self.height,
                forall|k: int| 0 <= k < positions@.len() ==> open_cell(grid@, w, h,
                    #[trigger] positions@[k].0 as int, positions@[k].1 as int),
                forall|px: int, py: int| #[trigger] open_cell(grid@, w, h, px, py) && py < y
                    ==> positions@.contains((px as usize, py as usize)),
            decreases self.height - y,
        {
            let mut x: usize = 0;
            while x < self.width
                invariant
                    grid_wf(grid@, w, h),
                    w == self.width,
                    h == self.height,
                    y < self.height,
                    x <= self.width,
                    forall|k: int| 0 <= k < positions@.len() ==> open_cell(grid@, w, h,
                        #[trigger] positions@[k].0 as int, positions@[k].1 as int),
                    forall|px: int, py: int| #[trigger] open_cell(grid@, w, h, px, py) && (py < y || (py == y && px < x))
                        ==> positions@.contains((px as usize, py as usize)),
                decreases self.width - x,
            {
                let ghost before = positions@;
                if grid[y][x].is_none() {
                    positions.push((x, y));
                    proof {
                        assert(positions@[before.len() as int] == (x, y));
                        assert forall|p: (usize, usize)| before.contains(p) implies positions@.contains(p) by {
                            let k = choose|k: int| 0 <= k < before.len() && before[k] == p;
                            assert(positions@[k] == p);
                        }
                    }
                }
                proof {
                    assert forall|px: int, py: int| #[trigger] open_cell(grid@, w, h, px, py) && (py < y || (py == y && px < x + 1))
                        implies positions@.contains((px as usize, py as usize)) by {
                        if py == y && px == x {
                            assert(positions@.contains((x, y)));
                        } else {
                            assert(before.contains((px as usize, py as usize)));
                        }
                    }
                }
                x = x + 1;
            }
            y = y + 1;
        }
        proof {
            let (px, py) = choose|px: int, py: int| open_cell(grid@, w, h, px, py);
            assert(positions@.contains((px as usize, py as usize)));
        }
        let i = rng_range(rng, 0, positions.len());
        positions[i]
    }

    /// The on-board neighbours of a cell, left, right, up, down.
    ///
    /// Every neighbour is equally far from the board's edge for this purpose, so the order is a
    /// fixed preference.
    pub fn closest_board_edges(&self, x: usize, y: usize) -> (r: Vec<(usize, usize)>)
        requires
            x < self.spec_width(),
            y < self.spec_height(),
        ensures
            r@ == neighbours(x as int, y as int, self.spec_width() as int, self.spec_height() as int),
    {
        let mut spots: Vec<(usize, usize)> = Vec::new();
        if x >= 1 {
            spots.push((x - 1, y));
        }
        if x + 1 < self.width {
            spots.push((x + 1, y));
        }
        if y >= 1 {
            spots.push((x, y - 1));
        }
        if y + 1 < self.height {
            spots.push((x, y + 1));
        }
        assert(spots@ =~= neighbours(x as int, y as int, self.width as int, self.height as int));
        spots
    }

    /// An open cell next to a cell that holds `of`, where one exists; otherwise any open cell.
    fn find_adjacent_outwards_facing_position(&mut self, rng: &mut RandomNumberGenerator, of: &LevelItem, grid: &Grid) -> (r: (usize, usize))
        requires
            grid_wf(grid@, old(self).width as int, old(self).height as int),
            has_open_cell(grid@, old(self).width as int, old(self).height as int),
        ensures
            *final(self) == *old(self),
            open_cell(grid@, old(self).width as int, old(self).height as int, r.0 as int, r.1 as int),
            (exists|x: int, y: int| guards_open(grid@, old(self).width as int, old(self).height as int, *of, x, y)) ==>
                exists|x: int, y: int, k: int| in_board(x, y, old(self).width as int, old(self).height as int)
                    && at(grid@, x, y) == Some(*of)
                    && 0 <= k < neighbours(x, y, old(self).width as int, old(self).height as int).len()
                    && r == #[trigger] neighbours(x, y, old(self).width as int, old(self).height as int)[k],
    {
        let ghost w = self.width as int;
        let ghost h = self.height as int;
        let mut positions = self.all_items_of_type_shuffled(rng, of, grid);
        proof {
            assert forall|k: int| 0 <= k < positions@.len() implies in_board(#[trigger] positions@[k].0 as int, positions@[k].1 as int, w, h)
                && at(grid@, positions@[k].0 as int, positions@[k].1 as int) == Some(*of) by {
                assert(positions@.contains(positions@[k]));
            }
        }
        while positions.len() > 0
            invariant
                grid_wf(grid@, w, h),
                has_open_cell(grid@, w, h),
                w == self.width,
                h == self.height,
                *self == *old(self),
                forall|k: int| 0 <= k < positions@.len() ==> in_board(#[trigger] positions@[k].0 as int, positions@[k].1 as int, w, h)
                    && at(grid@, positions@[k].0 as int, positions@[k].1 as int) == Some(*of),
                forall|x: int, y: int| #[trigger] guards_open(grid@, w, h, *of, x, y) ==> positions@.contains((x as usize, y as usize)),
            decreases positions.len(),
        {
            let ghost before = positions@;
            let next = positions.pop().unwrap();
            proof {
                assert(before[before.len() - 1] == next);
                assert(at(grid@, next.0 as int, next.1 as int) == Some(*of));
            }
            let adjacent = self.closest_board_edges(next.0, next.1);
            let mut i: usize = 0;
            while i < adjacent.len()
                invariant
                    grid_wf(grid@, w, h),
                    w == self.width,
                    h == self.height,
                    *self == *old(self),
                    in_board(next.0 as int, next.1 as int, w, h),
                    at(grid@, next.0 as int, next.1 as int) == Some(*of),
                    adjacent@ == neighbours(next.0 as int, next.1 as int, w, h),
                    forall|j: int| 0 <= j < i ==> !open_cell(grid@, w, h, #[trigger] adjacent@[j].0 as int, adjacent@[j].1 as int),
                    i <= adjacent.len(),
                decreases adjacent.len() - i,
            {
                let (ax, ay) = adjacent[i];
                if grid[ay][ax].is_none() {
                    proof {
                        assert(in_board(ax as int, ay as int, w, h));
                        assert((ax, ay) == neighbours(next.0 as int, next.1 as int, w, h)[i as int]);
                    }
                    return (ax, ay);
                }
                i = i + 1;
            }
            proof {
                assert(!guards_open(grid@, w, h, *of, next.0 as int, next.1 as int));
                assert forall|x: int, y: int| #[trigger] guards_open(grid@, w, h, *of, x, y) implies positions@.contains((x as usize, y as usize)) by {
                    assert(before.contains((x as usize, y as usize)));
                    let k = choose|k: int| 0 <= k < before.len() && before[k] == (x as usize, y as usize);
                    if k == before.len() - 1 {
                        assert((x as usize, y as usize) == next);
                    } else {
                        assert(positions@[k] == before[k]);
                    }
                }
            }
        }
        proof {
            assert forall|x: int, y: int| !guards_open(grid@, w, h, *of, x, y) by {
                if guards_open(grid@, w, h, *of, x, y) {
                    assert(positions@.contains((x as usize, y as usize)));
                }
            }
        }
        self.find_any_open_position(rng, grid)
    }

    /// An open cell at exactly `d` cells along one axis from a cell that holds `of`, for the
    /// smallest `d` in `outside..within` that has one; otherwise any open cell.
    pub fn find_somewhat_adjacent_position(
        &mut self,
        rng: &mut RandomNumberGenerator,
        outside: usize,
        within: usize,
        of: &LevelItem,
        grid: &Grid,
    ) -> (r: (usize, usize))
        requires
            grid_wf(grid@, old(self).spec_width() as int, old(self).spec_height() as int),
            has_open_cell(grid@, old(self).spec_width() as int, old(self).spec_height() as int),
        ensures
            *final(self) == *old(self),
            open_cell(grid@, old(self).spec_width() as int, old(self).spec_height() as int, r.0 as int, r.1 as int),
            (exists|d: int| outside <= d < within && radius_hits(grid@, old(self).spec_width() as int, old(self).spec_height() as int, *of, d))
                ==> exists|d: int, rx: int, ry: int, k: int| outside <= d < within
                    && #[trigger] ring_hit(grid@, old(self).spec_width() as int, old(self).spec_height() as int, *of, rx, ry, d, k)
                    && r.0 as int == ring_point(rx, ry, d, k).0 && r.1 as int == ring_point(rx, ry, d, k).1
                    && forall|d2: int| outside <= d2 < d ==> !radius_hits(grid@, old(self).spec_width() as int, old(self).spec_height() as int, *of, d2),
    {
        let ghost w = self.width as int;
        let ghost h = self.height as int;
        let positions = self.all_items_of_type_shuffled(rng, of, grid);
        let mut d: usize = outside;
        while d < within
            invariant
                grid_wf(grid@, w, h),
                has_open_cell(grid@, w, h),
                w == self.width,
                h == self.height,
                *self == *old(self),
                outside <= d,
                forall|p: (usize, usize)| positions@.contains(p) <==> (in_board(p.0 as int, p.1 as int, w, h)
                    && at(grid@, p.0 as int, p.1 as int) == Some(*of)),
                forall|d2: int| outside <= d2 < d ==> !radius_hits(grid@, w, h, *of, d2),
            decreases within - d,
        {
            let mut j: usize = 0;
            while j < positions.len()
                invariant
                    grid_wf(grid@, w, h),
                    w == self.width,
                    h == self.height,
                    *self == *old(self),
                    outside <= d < within,
                    j <= positions.len(),
                    forall|p: (usize, usize)| positions@.contains(p) <==> (in_board(p.0 as int, p.1 as int, w, h)
                        && at(grid@, p.0 as int, p.1 as int) == Some(*of)),
                    forall|d2: int| outside <= d2 < d ==> !radius_hits(grid@, w, h, *of, d2),
                    forall|j2: int, k: int| 0 <= j2 < j ==> !#[trigger] ring_hit(grid@, w, h, *of, positions@[j2].0 as int, positions@[j2].1 as int, d as int, k),
                decreases positions.len() - j,
            {
                let (x, y) = positions[j];
                proof {
                    assert(positions@.contains((x, y)));
                }
                let mut k: usize = 0;
                while k < 4
                    invariant
                        grid_wf(grid@, w, h),
                        w == self.width,
                        h == self.height,
                        *self == *old(self),
                        outside <= d < within,
                        in_board(x as int, y as int, w, h),
                        at(grid@, x as int, y as int) == Some(*of),
                        forall|d2: int| outside <= d2 < d ==> !radius_hits(grid@, w, h, *of, d2),
                        forall|k2: int| 0 <= k2 < k ==> !#[trigger] ring_hit(grid@, w, h, *of, x as int, y as int, d as int, k2),
                        k <= 4,
                    decreases 4 - k,
                {
                    if let Some((cx, cy)) = ring_candidate(x, y, d, k, self.width, self.height) {
                        if grid[cy][cx].is_none() {
                            proof {
                                assert(ring_hit(grid@, w, h, *of, x as int, y as int, d as int, k as int));
                            }
                            return (cx, cy);
                        }
                    }
                    k = k + 1;
                }
                proof {
                    assert forall|j2: int, k2: int| 0 <= j2 < j + 1 implies !#[trigger] ring_hit(grid@, w, h, *of, positions@[j2].0 as int, positions@[j2].1 as int, d as int, k2) by {
                        if j2 == j {
                            if 0 <= k2 < 4 {
                            }
                        }
                    }
                }
                j = j + 1;
            }
            proof {
                assert(!radius_hits(grid@, w, h, *of, d as int)) by {
                    if radius_hits(grid@, w, h, *of, d as int) {
                        let (rx, ry, k) = choose|rx: int, ry: int, k: int| ring_hit(grid@, w, h, *of, rx, ry, d as int, k);
                        assert(positions@.contains((rx as usize, ry as usize)));
                        let j2 = choose|j2: int| 0 <= j2 < positions@.len() && positions@[j2] == (rx as usize, ry as usize);
                        assert(!ring_hit(grid@, w, h, *of, positions@[j2].0 as int, positions@[j2].1 as int, d as int, k));
                    }
                }
            }
            d = d + 1;
        }
        self.find_any_open_position(rng, grid)
    }

    /// The filled cells of the grid, row by row.
    fn convert_to_level_inserts(&self, grid: &Grid) -> (r: Vec<LevelInsert>)
        requires
            grid_wf(grid@, self.width as int, self.height as int),
            self.width <= 256,
            self.height <= 256,
        ensures
            forall|i: int| 0 <= i < r@.len() ==> in_board(#[trigger] r@[i].position.0 as int, r@[i].position.1 as int, self.width as int, self.height as int)
                && at(grid@, r@[i].position.0 as int, r@[i].position.1 as int) == Some(r@[i].item),
            forall|i: int, j: int| 0 <= i < j < r@.len() ==> #[trigger] r@[i].position != #[trigger] r@[j].position,
            forall|i: int, j: int| 0 <= i < j < r@.len() ==> (#[trigger] r@[i].position.1 < #[trigger] r@[j].position.1
                || (r@[i].position.1 == r@[j].position.1 && r@[i].position.0 < r@[j].position.0)),
            forall|x: int, y: int| in_board(x, y, self.width as int, self.height as int) && (#[trigger] at(grid@, x, y)).is_some()
                ==> placed_at(r@, x, y),
            forall|k: LevelItem| #[trigger] count_inserts(r@, k) == count_grid(grid@, Some(k)),
            r@.len() + count_grid(grid@, None) == self.width * self.height,
    {
        let ghost w = self.width as int;
        let ghost h = self.height as int;
        let mut level: Vec<LevelInsert> = Vec::new();
        let mut y: usize = 0;
        while y < self.height
            invariant
                grid_wf(grid@, w, h),
                w == self.width,
                h == self.height,
                w <= 256,
                h <= 256,
                y <= h,
                forall|i: int| 0 <= i < level@.len() ==> in_board(#[trigger] level@[i].position.0 as int, level@[i].position.1 as int, w, h)
                    && at(grid@, level@[i].position.0 as int, level@[i].position.1 as int) == Some(level@[i].item)
                    && level@[i].position.1 < y,
                forall|i: int, j: int| 0 <= i < j < level@.len() ==> (level@[i].position.1 < level@[j].position.1
                    || (level@[i].position.1 == level@[j].position.1 && level@[i].position.0 < level@[j].position.0)),
                forall|k: LevelItem| #[trigger] count_inserts(level@, k) == count_grid(grid@.take(y as int), Some(k)),
                level@.len() + count_grid(grid@.take(y as int), None) == y * w,
                forall|px: int, py: int| in_board(px, py, w, y as int) && (#[trigger] at(grid@, px, py)).is_some() ==> placed_at(level@, px, py),
            decreases h - y,
        {
            let mut x: usize = 0;
            while x < self.width
                invariant
                    grid_wf(grid@, w, h),
                    w == self.width,
                    h == self.height,
                    w <= 256,
                    h <= 256,
                    y < h,
                    x <= w,
                    forall|i: int| 0 <= i < level@.len() ==> in_board(#[trigger] level@[i].position.0 as int, level@[i].position.1 as int, w, h)
                        && at(grid@, level@[i].position.0 as int, level@[i].position.1 as int) == Some(level@[i].item)
                        && (level@[i].position.1 < y || (level@[i].position.1 == y && level@[i].position.0 < x)),
                    forall|i: int, j: int| 0 <= i < j < level@.len() ==> (level@[i].position.1 < level@[j].position.1
                        || (level@[i].position.1 == level@[j].position.1 && level@[i].position.0 < level@[j].position.0)),
                    forall|k: LevelItem| #[trigger] count_inserts(level@, k)
                        == count_grid(grid@.take(y as int), Some(k)) + count_row(grid@[y as int]@.take(x as int), Some(k)),
                    level@.len() + count_grid(grid@.take(y as int), None) + count_row(grid@[y as int]@.take(x as int), None) == y * w + x,
                    forall|px: int, py: int| (in_board(px, py, w, y as int) || (py == y && 0 <= px < x)) && (#[trigger] at(grid@, px, py)).is_some()
                        ==> placed_at(level@, px, py),
                decreases w - x,
            {
                let ghost before = level@;
                let ghost row = grid@[y as int]@;
                proof {
                    assert(row.take(x + 1).drop_last() =~= row.take(x as int));
                }
                proof {
                    assert(row.take(x + 1).last() == row[x as int]);
                }
                match grid[y][x] {
                    Some(item) => {
                        level.push(LevelInsert { position: (x as u8, y as u8), item });
                        proof {
                            assert(level@.drop_last() =~= before);
                            assert forall|k: LevelItem| #[trigger] count_inserts(level@, k)
                                == count_grid(grid@.take(y as int), Some(k)) + count_row(grid@[y as int]@.take(x + 1), Some(k)) by {
                                assert(count_row(row.take(x + 1), Some(k)) == count_row(row.take(x as int), Some(k))
                                    + if row[x as int] == Some(k) { 1nat } else { 0nat });
                                assert(count_inserts(before, k) == count_grid(grid@.take(y as int), Some(k)) + count_row(row.take(x as int), Some(k)));
                            }
                        }
                    },
                    None => {
                        proof {
                            assert forall|k: LevelItem| #[trigger] count_inserts(level@, k)
                                == count_grid(grid@.take(y as int), Some(k)) + count_row(grid@[y as int]@.take(x + 1), Some(k)) by {
                                assert(count_row(row.take(x + 1), Some(k)) == count_row(row.take(x as int), Some(k))
                                    + if row[x as int] == Some(k) { 1nat } else { 0nat });
                            }
                        }
                    },
                }
                proof {
                    assert(count_row(row.take(x + 1), None) == count_row(row.take(x as int), None)
                        + if row[x as int] == None::<LevelItem> { 1nat } else { 0nat });
                    assert forall|px: int, py: int| (in_board(px, py, w, y as int) || (py == y && 0 <= px < x + 1)) && (#[trigger] at(grid@, px, py)).is_some()
                        implies placed_at(level@, px, py) by {
                        if py == y && px == x {
                            assert(level@[level@.len() - 1].position == (x as u8, y as u8));
                        } else {
                            assert(placed_at(before, px, py));
                            let i = choose|i: int| 0 <= i < before.len() && #[trigger] before[i].position == (px as u8, py as u8);
                            assert(level@[i] == before[i]);
                        }
                    }
                }
                x = x + 1;
            }
            proof {
                assert(grid@[y as int]@.take(w) =~= grid@[y as int]@);
                assert(grid@.take(y + 1).drop_last() =~= grid@.take(y as int));
                assert((y + 1) * w == y * w + w) by (nonlinear_arith);
            }
            y = y + 1;
        }
        proof {
            assert(grid@.take(h) =~= grid@);
            assert(h * w == w * h) by (nonlinear_arith);
            assert forall|i: int, j: int| 0 <= i < j < level@.len() implies (#[trigger] level@[i].position.1 < #[trigger] level@[j].position.1
                || (level@[i].position.1 == level@[j].position.1 && level@[i].position.0 < level@[j].position.0)) by {
            }
            assert forall|i: int, j: int| 0 <= i < j < level@.len() implies #[trigger] level@[i].position != #[trigger] level@[j].position by {
            }
        }
        level
    }

    /// Lays out a level: `houses` houses, a farm per house, two walls per house, trees until
    /// `density` percent of the board is filled or the board is full, then the player if a cell
    /// is left.
    pub fn generate(&mut self, rng: &mut RandomNumberGenerator, houses: u8, density: u8) -> (r: Vec<LevelInsert>)
        requires
            houses >= 1,
            density <= 100,
            3 <= old(self).spec_width() <= 256,
            3 <= old(self).spec_height() <= 256,
            4 * houses <= old(self).spec_width() * old(self).spec_height(),
        ensures
            *final(self) == *old(self),
            forall|i: int| 0 <= i < r@.len() ==> in_board(#[trigger] r@[i].position.0 as int, r@[i].position.1 as int,
                old(self).spec_width() as int, old(self).spec_height() as int),
            forall|i: int, j: int| 0 <= i < j < r@.len() ==> #[trigger] r@[i].position != #[trigger] r@[j].position,
            count_inserts(r@, LevelItem::House) == houses,
            count_inserts(r@, LevelItem::Farm) == houses,
            count_inserts(r@, LevelItem::Wall) == 2 * houses,
            count_inserts(r@, LevelItem::Tree) == fill_level(4 * houses, density as int, old(self).spec_width() * old(self).spec_height()) - 4 * houses,
            count_inserts(r@, LevelItem::Player { health: 5 }) == if fill_level(4 * houses, density as int, old(self).spec_width() * old(self).spec_height())
                < old(self).spec_width() * old(self).spec_height() { 1int } else { 0int },
            r@.len() == fill_level(4 * houses, density as int, old(self).spec_width() * old(self).spec_height())
                + if fill_level(4 * houses, density as int, old(self).spec_width() * old(self).spec_height())
                    < old(self).spec_width() * old(self).spec_height() { 1int } else { 0int },
            players_alive(r@),
            exists|i: int| 0 <= i < r@.len() && (#[trigger] r@[i]).item == LevelItem::House
                && old(self).spec_width() / 3 <= r@[i].position.0 < 2 * (old(self).spec_width() / 3)
                && old(self).spec_height() / 3 <= r@[i].position.1 < 2 * (old(self).spec_height() / 3),
            density == 0 ==> count_inserts(r@, LevelItem::Tree) == 0,
            density == 100 ==> r@.len() == old(self).spec_width() * old(self).spec_height(),
    {
        let ghost w = self.width as int;
        let ghost h = self.height as int;
        assert(0 <= w * h <= 65536) by (nonlinear_arith)
            requires
                3 <= w <= 256,
                3 <= h <= 256,
        ;
        let total: usize = self.width * self.height;
        let houses_n: usize = houses as usize;

        let mut grid: Grid = Vec::new();
        let mut gy: usize = 0;
        while gy < self.height
            invariant
                w == self.width,
                h == self.height,
                gy <= h,
                grid@.len() == gy,
                forall|yy: int| 0 <= yy < gy ==> #[trigger] grid@[yy]@.len() == w,
                forall|yy: int, xx: int| 0 <= yy < gy && 0 <= xx < w ==> at(grid@, xx, yy).is_none(),
                tally(grid@, 0, 0, 0, 0, 0, gy * w),
            decreases h - gy,
        {
            let mut row: Vec<Option<LevelItem>> = Vec::new();
            let mut gx: usize = 0;
            while gx < self.width
                invariant
                    w == self.width,
                    gx <= w,
                    row@.len() == gx,
                    forall|xx: int| 0 <= xx < gx ==> row@[xx].is_none(),
                decreases w - gx,
            {
                row.push(None);
                gx = gx + 1;
            }
            let ghost g0 = grid@;
            grid.push(row);
            proof {
                assert(grid@.drop_last() =~= g0);
                assert forall|yy: int, xx: int| 0 <= yy < gy + 1 && 0 <= xx < w implies at(grid@, xx, yy).is_none() by {
                    if yy < gy {
                        assert(at(g0, xx, yy).is_none());
                        assert(grid@[yy] == g0[yy]);
                    } else {
                        assert(grid@[yy] == row);
                    }
                }
                lemma_count_row_constant(row@, None);
                assert forall|t: Option<LevelItem>| t.is_some() implies count_row(row@, t) == 0 by {
                    lemma_count_row_absent(row@, t);
                }
                assert((gy + 1) * w == gy * w + w) by (nonlinear_arith);
            }
            gy = gy + 1;
        }
        assert(grid_wf(grid@, w, h));
        assert(total == w * h);
        assert(h * w == w * h) by (nonlinear_arith);

        // The first house goes in the middle third of the board.
        let x_third = self.width / 3;
        let y_third = self.height / 3;
        let fx = rng_range(rng, x_third, x_third * 2);
        let fy = rng_range(rng, y_third, y_third * 2);
        assert(at(grid@, fx as int, fy as int).is_none());
        let ghost g_empty = grid@;
        set_cell(&mut grid, fx, fy, Some(LevelItem::House), Ghost(w), Ghost(h));
        let mut occupied: usize = 1;
        proof {
            assert forall|x: int, y: int| in_board(x, y, w, h) implies match #[trigger] at(grid@, x, y) {
                Some(LevelItem::Player { health }) => health == 5,
                _ => true,
            } by {
                if (x, y) != (fx as int, fy as int) {
                    assert(at(grid@, x, y) == at(g_empty, x, y));
                }
            }
        }

        // The other houses go two or three cells from a house.
        let mut houses_added: usize = 1;
        while houses_added < houses_n
            invariant
                grid_wf(grid@, w, h),
                w == self.width,
                h == self.height,
                *self == *old(self),
                total == w * h,
                4 * houses_n <= total,
                1 <= houses_added <= houses_n,
                occupied == houses_added,
                tally(grid@, houses_added as int, 0, 0, 0, 0, total - occupied),
                at(grid@, fx as int, fy as int) == Some(LevelItem::House),
                in_board(fx as int, fy as int, w, h),
                x_third == w / 3,
                y_third == h / 3,
                x_third <= fx < 2 * x_third,
                y_third <= fy < 2 * y_third,
                players_ok(grid@, w, h),
            decreases houses_n - houses_added,
        {
            proof { lemma_open_from_count(grid@, w, h); }
            let (x, y) = self.find_somewhat_adjacent_position(rng, 2, 4, &LevelItem::House, &grid);
            set_cell(&mut grid, x, y, Some(LevelItem::House), Ghost(w), Ghost(h));
            houses_added = houses_added + 1;
            occupied = occupied + 1;
        }

        // A farm next to a house, for each house.
        let mut farms_added: usize = 0;
        while farms_added < houses_n
            invariant
                grid_wf(grid@, w, h),
                w == self.width,
                h == self.height,
                *self == *old(self),
                total == w * h,
                4 * houses_n <= total,
                farms_added <= houses_n,
                occupied == houses_n + farms_added,
                tally(grid@, houses_n as int, farms_added as int, 0, 0, 0, total - occupied),
                at(grid@, fx as int, fy as int) == Some(LevelItem::House),
                in_board(fx as int, fy as int, w, h),
                x_third == w / 3,
                y_third == h / 3,
                x_third <= fx < 2 * x_third,
                y_third <= fy < 2 * y_third,
                players_ok(grid@, w, h),
            decreases houses_n - farms_added,
        {
            proof { lemma_open_from_count(grid@, w, h); }
            let (x, y) = self.find_somewhat_adjacent_position(rng, 1, 2, &LevelItem::House, &grid);
            set_cell(&mut grid, x, y, Some(LevelItem::Farm), Ghost(w), Ghost(h));
            farms_added = farms_added + 1;
            occupied = occupied + 1;
        }

        // Two walls per house, each next to a house or a farm picked at random.
        let mut walls_added: usize = 0;
        while walls_added < 2 * houses_n
            invariant
                grid_wf(grid@, w, h),
                w == self.width,
                h == self.height,
                *self == *old(self),
                total == w * h,
                4 * houses_n <= total,
                walls_added <= 2 * houses_n,
                occupied == 2 * houses_n + walls_added,
                tally(grid@, houses_n as int, houses_n as int, walls_added as int, 0, 0, total - occupied),
                at(grid@, fx as int, fy as int) == Some(LevelItem::House),
                in_board(fx as int, fy as int, w, h),
                x_third == w / 3,
                y_third == h / 3,
                x_third <= fx < 2 * x_third,
                y_third <= fy < 2 * y_third,
                players_ok(grid@, w, h),
            decreases 2 * houses_n - walls_added,
        {
            proof { lemma_open_from_count(grid@, w, h); }
            let item_to_protect = if rng_range(rng, 0, 2) == 0 { LevelItem::House } else { LevelItem::Farm };
            let (x, y) = self.find_adjacent_outwards_facing_position(rng, &item_to_protect, &grid);
            set_cell(&mut grid, x, y, Some(LevelItem::Wall), Ghost(w), Ghost(h));
            walls_added = walls_added + 1;
            occupied = occupied + 1;
        }

        // Trees at random open cells until the density is reached or the board is full.
        let ghost start = occupied as int;
        proof { lemma_fill_level_bounds(start, density as int, total as int); }
        assert((density as int) * total <= 6553600) by (nonlinear_arith)
            requires
                density <= 100,
                total <= 65536,
        ;
        let limit: usize = (density as usize) * total;
        while occupied < total && occupied * 100 < limit
            invariant
                grid_wf(grid@, w, h),
                w == self.width,
                h == self.height,
                *self == *old(self),
                total == w * h,
                total <= 65536,
                density <= 100,
                limit == density * total,
                start == 4 * houses_n,
                start <= occupied <= total,
                fill_level(occupied as int, density as int, total as int) == fill_level(start, density as int, total as int),
                tally(grid@, houses_n as int, houses_n as int, 2 * houses_n, occupied - start, 0, total - occupied),
                at(grid@, fx as int, fy as int) == Some(LevelItem::House),
                in_board(fx as int, fy as int, w, h),
                x_third == w / 3,
                y_third == h / 3,
                x_third <= fx < 2 * x_third,
                y_third <= fy < 2 * y_third,
                players_ok(grid@, w, h),
            decreases total - occupied,
        {
            proof { lemma_open_from_count(grid@, w, h); }
            let (x, y) = self.find_any_open_position(rng, &grid);
            set_cell(&mut grid, x, y, Some(LevelItem::Tree), Ghost(w), Ghost(h));
            occupied = occupied + 1;
        }
        assert(occupied == fill_level(start, density as int, total as int));

        // The player, near a house, if a cell is left.
        if occupied < total {
            proof { lemma_open_from_count(grid@, w, h); }
            let (x, y) = self.find_somewhat_adjacent_position(rng, 1, 3, &LevelItem::House, &grid);
            set_cell(&mut grid, x, y, Some(LevelItem::Player { health: 5 }), Ghost(w), Ghost(h));
        }
        let r = self.convert_to_level_inserts(&grid);
        proof {
            assert(placed_at(r@, fx as int, fy as int));
            let i = choose|i: int| 0 <= i < r@.len() && #[trigger] r@[i].position == (fx as u8, fy as u8);
            assert(at(grid@, r@[i].position.0 as int, r@[i].position.1 as int) == Some(r@[i].item));
            lemma_fill_level_bounds(start, density as int, total as int);
            assert forall|i: int| 0 <= i < r@.len() implies match #[trigger] r@[i].item {
                LevelItem::Player { health } => health >= 1,
                _ => true,
            } by {
                assert(at(grid@, r@[i].position.0 as int, r@[i].position.1 as int) == Some(r@[i].item));
            }
        }
        r
    }

    /// Turns placements into entities, in order; returns the last player created.
    pub fn insert(world: &mut Store, level: Vec<LevelInsert>) -> (r: Option<EntityId>)
        requires
            old(world).wf(),
            old(world)@.len() + level@.len() <= usize::MAX,
            players_alive(level@),
        ensures
            final(world).wf(),
            final(world)@.len() == old(world)@.len() + level@.len(),
            forall|e: int| 0 <= e < old(world)@.len() ==> #[trigger] final(world)@[e] == old(world)@[e],
            forall|e: int| old(world)@.len() <= e < final(world)@.len() ==> #[trigger] final(world)@[e] == Some(inserted(level@[e - old(world)@.len()])),
            r.is_some() <==> exists|i: int| 0 <= i < level@.len() && (#[trigger] level@[i].item) is Player,
            r.is_some() ==> old(world)@.len() <= r.unwrap() < final(world)@.len()
                && level@[r.unwrap() - old(world)@.len()].item is Player,
    {
        let ghost s0 = world@;
        let mut player: Option<EntityId> = None;
        let mut i: usize = 0;
        while i < level.len()
            invariant
                world.wf(),
                world@.len() == s0.len() + i,
                s0.len() + level@.len() <= usize::MAX,
                i <= level@.len(),
                players_alive(level@),
                forall|e: int| 0 <= e < s0.len() ==> #[trigger] world@[e] == s0[e],
                forall|e: int| s0.len() <= e < world@.len() ==> #[trigger] world@[e] == Some(inserted(level@[e - s0.len()])),
                player.is_some() <==> exists|j: int| 0 <= j < i && (#[trigger] level@[j].item) is Player,
                player.is_some() ==> s0.len() <= player.unwrap() < world@.len() && level@[player.unwrap() - s0.len()].item is Player,
            decreases level@.len() - i,
        {
            let ins = level[i];
            let x = ins.position.0 as i32;
            let y = ins.position.1 as i32;
            let rec = match ins.item {
                LevelItem::Player { health } => configure_player(x, y, health),
                LevelItem::Farm => configure_farm(x, y),
                LevelItem::House => configure_house(x, y),
                LevelItem::Wall => configure_wall(x, y),
                LevelItem::Tree => configure_tree(x, y),
            };
            let id = world.create(rec);
            if let LevelItem::Player { .. } = ins.item {
                player = Some(id);
            }
            proof {
                assert(world@[s0.len() + i] == Some(inserted(level@[i as int])));
            }
            i = i + 1;
        }
        player
    }
}

} // verus!
