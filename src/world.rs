//! A plain grid world whose cells hold lists of entities.
use vstd::prelude::*;

verus! {

/// An entity of the grid world.
#[derive(Clone, Copy, Debug, PartialEq, Eq, Structural)]
pub enum Entity {
    Farm,
    Goblin { moving: Direction },
    House,
    Player,
    Wall,
}

#[derive(Clone, Copy, Debug, PartialEq, Eq, Structural)]
pub enum Direction {
    Down,
    Left,
    Right,
    Up,
}

/// A cell of the grid world.
pub struct Cell {
    entities: Vec<Entity>,
}

impl View for Cell {
    type V = Seq<Entity>;

    closed spec fn view(&self) -> Seq<Entity> {
        self.entities@
    }
}

impl Cell {
    /// A cell with nothing in it.
    pub fn empty() -> (r: Cell)
        ensures
            r@ == Seq::<Entity>::empty(),
    {
        Cell { entities: Vec::new() }
    }

    /// Adds an entity to the cell.
    pub fn add(&mut self, entity: Entity)
        ensures
            final(self)@ == old(self)@.push(entity),
    {
        self.entities.push(entity);
    }

    /// The entities in the cell, in the order they were added.
    pub fn iter(&self) -> (r: &Vec<Entity>)
        ensures
            r@ == self@,
    {
        &self.entities
    }

    /// Returns the number of entities in the cell.
    pub fn len(&self) -> (r: usize)
        ensures
            r == self@.len(),
    {
        self.entities.len()
    }

    /// Removes and returns the entity at the given index.
    pub fn remove(&mut self, index: usize) -> (r: Entity)
        requires
            index < old(self)@.len(),
        ensures
            r == old(self)@[index as int],
            final(self)@ == old(self)@.remove(index as int),
    {
        self.entities.remove(index)
    }
}

/// A grid of cells, row by row.
pub struct World {
    cells: Vec<Cell>,
    width: usize,
}

/// What the demo world holds on each cell.
pub open spec fn demo_cell(x: int, y: int) -> Seq<Entity> {
    if x == 6 && y == 0 {
        seq![Entity::Goblin { moving: Direction::Down }]
    } else if x == 9 && (y == 2 || y == 3) {
        seq![Entity::Goblin { moving: Direction::Left }]
    } else if x == 0 && y == 5 {
        seq![Entity::Goblin { moving: Direction::Right }]
    } else if x == 4 && y == 9 {
        seq![Entity::Goblin { moving: Direction::Up }]
    } else if (x == 4 && y == 5) || (x == 6 && y == 6) {
        seq![Entity::House]
    } else if (y == 3 && (x == 3 || x == 4)) || (x == 8 && (y == 5 || y == 6)) {
        seq![Entity::Wall]
    } else if (x == 4 && y == 4) || (x == 7 && y == 6) {
        seq![Entity::Farm]
    } else if x == 5 && y == 4 {
        seq![Entity::Player]
    } else {
        Seq::empty()
    }
}

impl World {
    pub closed spec fn spec_width(&self) -> usize {
        self.width
    }

    pub closed spec fn spec_height(&self) -> int {
        if self.width == 0 { 0 } else { self.cells@.len() as int / self.width as int }
    }

    /// The contents of cell `(x, y)`.
    pub closed spec fn contents(&self, x: int, y: int) -> Seq<Entity> {
        self.cells@[y * (self.width as int) + x]@
    }

    pub closed spec fn wf(&self) -> bool {
        self.width > 0 && (self.cells@.len() as int) % (self.width as int) == 0
    }

    /// The demo world: ten by ten, five goblins heading across, two houses, two farms, four
    /// walls and the player.
    pub fn demo() -> (r: World)
        ensures
            r.wf(),
            r.spec_width() == 10,
            r.spec_height() == 10,
            forall|x: int, y: int| 0 <= x < 10 && 0 <= y < 10 ==> #[trigger] r.contents(x, y) == demo_cell(x, y),
    {
        let mut demo = World::new(10, 10);
        let ghost d0 = demo;
        let ghost w0 = demo.cells@;
        demo.at(6, 0).add(Entity::Goblin { moving: Direction::Down });
        demo.at(9, 2).add(Entity::Goblin { moving: Direction::Left });
        demo.at(9, 3).add(Entity::Goblin { moving: Direction::Left });
        demo.at(0, 5).add(Entity::Goblin { moving: Direction::Right });
        demo.at(4, 9).add(Entity::Goblin { moving: Direction::Up });
        demo.at(4, 5).add(Entity::House);
        demo.at(6, 6).add(Entity::House);
        demo.at(3, 3).add(Entity::Wall);
        demo.at(4, 3).add(Entity::Wall);
        demo.at(8, 5).add(Entity::Wall);
        demo.at(8, 6).add(Entity::Wall);
        demo.at(4, 4).add(Entity::Farm);
        demo.at(7, 6).add(Entity::Farm);
        demo.at(5, 4).add(Entity::Player);
        proof {
            assert forall|x: int, y: int| 0 <= x < 10 && 0 <= y < 10 implies #[trigger] demo.contents(x, y) == demo_cell(x, y) by {
                assert(d0.contents(x, y) == Seq::<Entity>::empty());
                assert(w0[y * 10 + x]@ == Seq::<Entity>::empty());
                assert(demo.contents(x, y) =~= demo_cell(x, y));
            }
        }
        demo
    }

    /// A world of empty cells; both sides must be positive.
    pub fn new(width: usize, height: usize) -> (r: World)
        requires
            width > 0,
            height > 0,
            width * height <= usize::MAX,
        ensures
            r.wf(),
            r.spec_width() == width,
            r.spec_height() == height,
            forall|x: int, y: int| 0 <= x < width && 0 <= y < height ==> #[trigger] r.contents(x, y) == Seq::<Entity>::empty(),
    {
        let n = width * height;
        let mut cells: Vec<Cell> = Vec::new();
        let mut i: usize = 0;
        while i < n
            invariant
                i <= n,
                cells@.len() == i,
                forall|k: int| 0 <= k < i ==> (#[trigger] cells@[k])@ == Seq::<Entity>::empty(),
            decreases n - i,
        {
            cells.push(Cell::empty());
            i = i + 1;
        }
        let r = World { cells, width };
        proof {
            assert((height as int) * (width as int) == n);
            assert((n as int) % (width as int) == 0) by (nonlinear_arith)
                requires
                    n == (height as int) * (width as int),
                    width > 0,
            ;
            assert((n as int) / (width as int) == height) by (nonlinear_arith)
                requires
                    n == (height as int) * (width as int),
                    width > 0,
            ;
            assert forall|x: int, y: int| 0 <= x < width && 0 <= y < height implies #[trigger] r.contents(x, y) == Seq::<Entity>::empty() by {
                assert(0 <= y * width + x < n) by (nonlinear_arith)
                    requires
                        0 <= x < width,
                        0 <= y < height,
                        n == height * width,
                ;
            }
        }
        r
    }

    /// The cell at `(x, y)`.
    fn at(&mut self, x: usize, y: usize) -> (r: &mut Cell)
        requires
            x < 10,
            y < 10,
            old(self).width == 10,
            old(self).cells@.len() == 100,
        ensures
            *r == old(self).cells@[y as int * 10 + x as int],
            final(self).cells@ == old(self).cells@.update(y as int * 10 + x as int, *final(r)),
            final(self).width == old(self).width,
    {
        &mut self.cells[y * 10 + x]
    }

    /// Advances the world by one step; goblins do not move yet.
    pub fn tick(&mut self)
        ensures
            forall|x: int, y: int| #[trigger] final(self).contents(x, y) == old(self).contents(x, y),
            final(self).spec_width() == old(self).spec_width(),
    {
    }
}

} // verus!
