//! The entity/component store: one column per component kind, indexed by entity id.
use vstd::prelude::*;
use crate::components::{AI, Attacking, EntityId, Health, Moving, Position, Renderable};

verus! {

/// Every component an entity may carry.
#[derive(Clone, Copy, Debug)]
pub struct EntityRecord {
    pub position: Option<Position>,
    pub renderable: Option<Renderable>,
    pub health: Option<Health>,
    pub ai: Option<AI>,
    pub player: bool,
    pub monster: bool,
    pub town: bool,
    pub moving: Option<Moving>,
    pub attacking: Option<Attacking>,
    pub defeated: bool,
}

impl EntityRecord {
    /// An entity with no component.
    pub fn empty() -> (r: EntityRecord)
        ensures
            r == EntityRecord::spec_empty(),
    {
        EntityRecord {
            position: None,
            renderable: None,
            health: None,
            ai: None,
            player: false,
            monster: false,
            town: false,
            moving: None,
            attacking: None,
            defeated: false,
        }
    }

    pub open spec fn spec_empty() -> EntityRecord {
        EntityRecord {
            position: None,
            renderable: None,
            health: None,
            ai: None,
            player: false,
            monster: false,
            town: false,
            moving: None,
            attacking: None,
            defeated: false,
        }
    }
}

/// Entities and their components. Ids are handed out in order and never reused, so a
/// destroyed id stays dead.
pub struct Store {
    alive: Vec<bool>,
    positions: Vec<Option<Position>>,
    renderables: Vec<Option<Renderable>>,
    healths: Vec<Option<Health>>,
    ais: Vec<Option<AI>>,
    players: Vec<bool>,
    monsters: Vec<bool>,
    towns: Vec<bool>,
    movings: Vec<Option<Moving>>,
    attackings: Vec<Option<Attacking>>,
    defeateds: Vec<bool>,
}

impl View for Store {
    /// Entity `e` is `Some` with its components while it lives, `None` once destroyed.
    type V = Seq<Option<EntityRecord>>;

    closed spec fn view(&self) -> Seq<Option<EntityRecord>> {
        Seq::new(
            self.alive@.len(),
            |i: int|
                if self.alive@[i] {
                    Some(
                        EntityRecord {
                            position: self.positions@[i],
                            renderable: self.renderables@[i],
                            health: self.healths@[i],
                            ai: self.ais@[i],
                            player: self.players@[i],
                            monster: self.monsters@[i],
                            town: self.towns@[i],
                            moving: self.movings@[i],
                            attacking: self.attackings@[i],
                            defeated: self.defeateds@[i],
                        },
                    )
                } else {
                    None
                },
        )
    }
}

impl Store {
    /// All columns have one entry per id.
    pub closed spec fn wf(&self) -> bool {
        let n = self.alive@.len();
        &&& n <= usize::MAX
        &&& self.positions@.len() == n
        &&& self.renderables@.len() == n
        &&& self.healths@.len() == n
        &&& self.ais@.len() == n
        &&& self.players@.len() == n
        &&& self.monsters@.len() == n
        &&& self.towns@.len() == n
        &&& self.movings@.len() == n
        &&& self.attackings@.len() == n
        &&& self.defeateds@.len() == n
    }

    pub fn new() -> (r: Store)
        ensures
            r.wf(),
            r@ == Seq::<Option<EntityRecord>>::empty(),
    {
        let r = Store {
            alive: Vec::new(),
            positions: Vec::new(),
            renderables: Vec::new(),
            healths: Vec::new(),
            ais: Vec::new(),
            players: Vec::new(),
            monsters: Vec::new(),
            towns: Vec::new(),
            movings: Vec::new(),
            attackings: Vec::new(),
            defeateds: Vec::new(),
        };
        assert(r@ =~= Seq::<Option<EntityRecord>>::empty());
        r
    }

    pub proof fn lemma_len_bound(&self)
        requires
            self.wf(),
        ensures
            self@.len() <= usize::MAX,
    {
    }

    /// The number of ids handed out so far.
    pub fn len(&self) -> (r: usize)
        requires
            self.wf(),
        ensures
            r == self@.len(),
    {
        self.alive.len()
    }

    /// A new entity carrying `components`; its id is the number of ids handed out before.
    pub fn create(&mut self, components: EntityRecord) -> (r: EntityId)
        requires
            old(self).wf(),
            old(self)@.len() < usize::MAX,
        ensures
            final(self).wf(),
            r == old(self)@.len(),
            final(self)@ == old(self)@.push(Some(components)),
    {
        let id = self.alive.len();
        self.alive.push(true);
        self.positions.push(components.position);
        self.renderables.push(components.renderable);
        self.healths.push(components.health);
        self.ais.push(components.ai);
        self.players.push(components.player);
        self.monsters.push(components.monster);
        self.towns.push(components.town);
        self.movings.push(components.moving);
        self.attackings.push(components.attacking);
        self.defeateds.push(components.defeated);
        assert(self@ =~= old(self)@.push(Some(components)));
        id
    }

    /// The components of `e`, or `None` where `e` is not a living entity.
    pub fn get(&self, e: EntityId) -> (r: Option<EntityRecord>)
        requires
            self.wf(),
        ensures
            r == (if e < self@.len() { self@[e as int] } else { None }),
    {
        if e < self.alive.len() && self.alive[e] {
            Some(
                EntityRecord {
                    position: self.positions[e],
                    renderable: self.renderables[e],
                    health: self.healths[e],
                    ai: self.ais[e],
                    player: self.players[e],
                    monster: self.monsters[e],
                    town: self.towns[e],
                    moving: self.movings[e],
                    attacking: self.attackings[e],
                    defeated: self.defeateds[e],
                },
            )
        } else {
            None
        }
    }

    /// Replaces the components of a living entity; does nothing for any other id.
    pub fn set(&mut self, e: EntityId, components: EntityRecord)
        requires
            old(self).wf(),
        ensures
            final(self).wf(),
            final(self)@ == (if e < old(self)@.len() && old(self)@[e as int].is_some() {
                old(self)@.update(e as int, Some(components))
            } else {
                old(self)@
            }),
    {
        if e < self.alive.len() && self.alive[e] {
            self.positions.set(e, components.position);
            self.renderables.set(e, components.renderable);
            self.healths.set(e, components.health);
            self.ais.set(e, components.ai);
            self.players.set(e, components.player);
            self.monsters.set(e, components.monster);
            self.towns.set(e, components.town);
            self.movings.set(e, components.moving);
            self.attackings.set(e, components.attacking);
            self.defeateds.set(e, components.defeated);
            assert(self@ =~= old(self)@.update(e as int, Some(components)));
        }
    }

    /// Removes an entity and all its components.
    pub fn destroy(&mut self, e: EntityId)
        requires
            old(self).wf(),
        ensures
            final(self).wf(),
            final(self)@ == (if e < old(self)@.len() { old(self)@.update(e as int, None) } else { old(self)@ }),
    {
        if e < self.alive.len() {
            self.alive.set(e, false);
            self.positions.set(e, None);
            self.renderables.set(e, None);
            self.healths.set(e, None);
            self.ais.set(e, None);
            self.players.set(e, false);
            self.monsters.set(e, false);
            self.towns.set(e, false);
            self.movings.set(e, None);
            self.attackings.set(e, None);
            self.defeateds.set(e, false);
            assert(self@ =~= old(self)@.update(e as int, None));
        }
    }
}

} // verus!
