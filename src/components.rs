//! Components that entities of the store carry.
use vstd::prelude::*;

verus! {

/// A board position.
#[derive(Clone, Copy, Debug, PartialEq, Eq, Structural)]
pub struct Position {
    pub x: i32,
    pub y: i32,
}

/// A direction of movement; as a component it marks an entity that moves this tick.
#[derive(Clone, Copy, Debug, PartialEq, Eq, Structural)]
pub enum Moving {
    Up,
    Down,
    Left,
    Right,
}

/// Type of what is drawn for an entity; also decides its rule category.
#[derive(Clone, Copy, Debug, PartialEq, Eq, Structural)]
pub enum Glyph {
    Farm,
    Orc,
    Rat,
    Goblin,
    House,
    Player,
    Tree,
    Wall,
}

/// Behaviour policy of a computer-controlled entity.
#[derive(Clone, Copy, Debug, PartialEq, Eq, Structural)]
pub enum AI {
    /// Moves in a random direction.
    Wander,
    /// Moves towards the nearest town entity.
    PrioritizeTown,
    /// Moves towards the player.
    PrioritizePlayer,
}

/// Whether an entity survived a blow.
#[derive(Clone, Copy, Debug, PartialEq, Eq, Structural)]
pub enum HealthState {
    Alive,
    Defeated,
}

/// The square of the Euclidean distance between two positions.
pub open spec fn dist2(a: Position, b: Position) -> int {
    (a.x - b.x) * (a.x - b.x) + (a.y - b.y) * (a.y - b.y)
}

/// The position one step from `p` in direction `d`.
pub open spec fn step(p: Position, d: Moving) -> (int, int) {
    match d {
        Moving::Up => (p.x as int, p.y - 1),
        Moving::Down => (p.x as int, p.y + 1),
        Moving::Left => (p.x - 1, p.y as int),
        Moving::Right => (p.x + 1, p.y as int),
    }
}

impl Position {
    pub fn new(x: i32, y: i32) -> (r: Position)
        ensures
            r.x == x,
            r.y == y,
    {
        Position { x, y }
    }

    /// The square of the Euclidean distance to `other` (the order of squared distances is the
    /// order of distances).
    pub fn distance2(&self, other: &Position) -> (r: i128)
        ensures
            r == dist2(*self, *other),
    {
        let dx: i128 = self.x as i128 - other.x as i128;
        let dy: i128 = self.y as i128 - other.y as i128;
        assert(0 <= dx * dx <= 0x1_0000_0000_0000_0000) by (nonlinear_arith)
            requires
                -0x1_0000_0000 <= dx <= 0x1_0000_0000,
        ;
        assert(0 <= dy * dy <= 0x1_0000_0000_0000_0000) by (nonlinear_arith)
            requires
                -0x1_0000_0000 <= dy <= 0x1_0000_0000,
        ;
        dx * dx + dy * dy
    }

    /// The position one step away in `direction`; `None` where a coordinate would leave `i32`.
    pub fn after(&self, direction: &Moving) -> (r: Option<Position>)
        ensures
            r.is_some() <==> (i32::MIN <= step(*self, *direction).0 <= i32::MAX
                && i32::MIN <= step(*self, *direction).1 <= i32::MAX),
            r.is_some() ==> r.unwrap().x == step(*self, *direction).0 && r.unwrap().y == step(*self, *direction).1,
    {
        match direction {
            Moving::Up => if self.y > i32::MIN { Some(Position::new(self.x, self.y - 1)) } else { None },
            Moving::Down => if self.y < i32::MAX { Some(Position::new(self.x, self.y + 1)) } else { None },
            Moving::Left => if self.x > i32::MIN { Some(Position::new(self.x - 1, self.y)) } else { None },
            Moving::Right => if self.x < i32::MAX { Some(Position::new(self.x + 1, self.y)) } else { None },
        }
    }
}

/// What an entity looks like.
#[derive(Clone, Copy, Debug, PartialEq, Eq, Structural)]
pub struct Renderable {
    pub glyph: Glyph,
}

impl Renderable {
    pub fn new(glyph: Glyph) -> (r: Renderable)
        ensures
            r.glyph == glyph,
    {
        Renderable { glyph }
    }

    pub fn glyph(&self) -> (r: Glyph)
        ensures
            r == self.glyph,
    {
        self.glyph
    }
}

/// Identifier of an entity of the store.
pub type EntityId = usize;

/// Marks an entity that strikes `target` this tick.
#[derive(Clone, Copy, Debug, PartialEq, Eq, Structural)]
pub struct Attacking {
    pub target: EntityId,
}

impl Attacking {
    pub fn new(target: EntityId) -> (r: Attacking)
        ensures
            r.target == target,
    {
        Attacking { target }
    }

    pub fn target(&self) -> (r: EntityId)
        ensures
            r == self.target,
    {
        self.target
    }
}

/// Hit points: `amount` never exceeds `maximum`, and `maximum` is at least one.
#[derive(Clone, Copy, Debug, PartialEq, Eq, Structural)]
pub struct Health {
    pub amount: u8,
    pub maximum: u8,
}

impl Health {
    pub open spec fn wf(self) -> bool {
        1 <= self.maximum && self.amount <= self.maximum
    }

    pub fn new(amount: u8) -> (r: Health)
        requires
            amount >= 1,
        ensures
            r.amount == amount,
            r.maximum == amount,
            r.wf(),
    {
        Health { amount, maximum: amount }
    }

    pub fn amount(&self) -> (r: u8)
        ensures
            r == self.amount,
    {
        self.amount
    }

    pub fn maximum(&self) -> (r: u8)
        ensures
            r == self.maximum,
    {
        self.maximum
    }

    /// Lowers the amount, stopping at zero; tells whether zero was reached.
    pub fn reduce(&mut self, amount: u8) -> (r: HealthState)
        ensures
            final(self).amount == if old(self).amount >= amount { old(self).amount - amount } else { 0 },
            final(self).maximum == old(self).maximum,
            r == (if final(self).amount == 0 { HealthState::Defeated } else { HealthState::Alive }),
            old(self).wf() ==> final(self).wf(),
    {
        self.amount = self.amount.saturating_sub(amount);
        if self.amount == 0 {
            HealthState::Defeated
        } else {
            HealthState::Alive
        }
    }

    /// Raises the maximum, stopping at `u8::MAX`.
    pub fn increase(&mut self, amount: u8)
        ensures
            final(self).maximum == if old(self).maximum + amount <= u8::MAX { old(self).maximum + amount } else { u8::MAX as int },
            final(self).amount == old(self).amount,
            old(self).wf() ==> final(self).wf(),
    {
        self.maximum = self.maximum.saturating_add(amount);
    }

    /// Restores the amount to the maximum.
    pub fn reset(&mut self)
        ensures
            final(self).amount == old(self).maximum,
            final(self).maximum == old(self).maximum,
            old(self).wf() ==> final(self).wf(),
    {
        self.amount = self.maximum;
    }
}

} // verus!
