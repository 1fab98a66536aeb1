//! Movement: entities step onto free cells, one after another, and every move intent ends.
use vstd::prelude::*;
use crate::components::{Position, step};
use crate::map::{GameMap, indexes, pos_of};
use crate::store::{EntityRecord, Store};

verus! {

/// The position one step from `p` in direction `d`.
pub open spec fn stepped(p: Position, d: crate::components::Moving) -> Position {
    Position { x: step(p, d).0 as i32, y: step(p, d).1 as i32 }
}

/// `a` is `b` after its turn of movement: its intent is gone, and it either stayed or took
/// the step it intended.
pub open spec fn moved_ok(b: EntityRecord, a: EntityRecord) -> bool {
    &&& a == EntityRecord { position: a.position, moving: None, ..b }
    &&& (a.position == b.position || (b.position.is_some() && b.moving.is_some()
        && a.position == Some(stepped(b.position.unwrap(), b.moving.unwrap()))))
}

/// No entity stands on `q` when entity `e` takes its turn: those before it where they ended up,
/// those after it where they started.
pub open spec fn free_at_turn(s0: Seq<Option<EntityRecord>>, s1: Seq<Option<EntityRecord>>, e: int, q: Position) -> bool {
    forall|k: int| #[trigger] pos_at_turn(s0, s1, e, k) != Some(q)
}

/// Where entity `k` stands when entity `e` takes its turn.
pub open spec fn pos_at_turn(s0: Seq<Option<EntityRecord>>, s1: Seq<Option<EntityRecord>>, e: int, k: int) -> Option<Position> {
    if k < e { pos_of(s1, k) } else { pos_of(s0, k) }
}

/// Entity `e` took its step exactly when the destination was on the board and free at its turn.
pub open spec fn moves_exactly(s0: Seq<Option<EntityRecord>>, s1: Seq<Option<EntityRecord>>, map: GameMap, e: int) -> bool {
    let b = s0[e].unwrap();
    let a = s1[e].unwrap();
    if b.position.is_some() && b.moving.is_some() {
        let dest = step(b.position.unwrap(), b.moving.unwrap());
        if map.in_map(dest.0, dest.1) && free_at_turn(s0, s1, e, stepped(b.position.unwrap(), b.moving.unwrap())) {
            a.position == Some(stepped(b.position.unwrap(), b.moving.unwrap()))
        } else {
            a.position == b.position
        }
    } else {
        a.position == b.position
    }
}

/// On an indexed board, a cell is free exactly when no entity stands on it.
proof fn lemma_free_cell(map: GameMap, s: Seq<Option<EntityRecord>>, q: Position)
    requires
        indexes(map, s),
        s.len() <= usize::MAX,
        map.in_map(q.x as int, q.y as int),
    ensures
        map.cell(q.x as int, q.y as int).is_none() <==> forall|k: int| #[trigger] pos_of(s, k) != Some(q),
{
    if map.cell(q.x as int, q.y as int).is_some() {
        let c = map.cell(q.x as int, q.y as int).unwrap();
        assert(pos_of(s, c as int) == Some(Position { x: q.x as int as i32, y: q.y as int as i32 }));
    } else {
        assert forall|k: int| #[trigger] pos_of(s, k) != Some(q) by {
            if pos_of(s, k) == Some(q) {
                assert(pos_of(s, k).is_some());
                assert(map.cell(q.x as int, q.y as int) == Some(k as usize));
            }
        }
    }
}

proof fn lemma_moves_exactly_frame(s0: Seq<Option<EntityRecord>>, s1: Seq<Option<EntityRecord>>, s2: Seq<Option<EntityRecord>>, map: GameMap, k: int)
    requires
        moves_exactly(s0, s1, map, k),
        s1[k] == s2[k],
        forall|j: int| #[trigger] pos_at_turn(s0, s1, k, j) == pos_at_turn(s0, s2, k, j),
    ensures
        moves_exactly(s0, s2, map, k),
{
    let b = s0[k].unwrap();
    if b.position.is_some() && b.moving.is_some() {
        let q = stepped(b.position.unwrap(), b.moving.unwrap());
        if free_at_turn(s0, s1, k, q) {
            assert forall|j: int| #[trigger] pos_at_turn(s0, s2, k, j) != Some(q) by {
                assert(pos_at_turn(s0, s1, k, j) != Some(q));
            }
        }
        if free_at_turn(s0, s2, k, q) {
            assert forall|j: int| #[trigger] pos_at_turn(s0, s1, k, j) != Some(q) by {
                assert(pos_at_turn(s0, s2, k, j) != Some(q));
            }
        }
    }
}

pub struct MovementSystem;

impl MovementSystem {
    /// In id order, each entity that intends to move steps onto its destination cell if that
    /// cell is on the board and free at that moment; the index follows each step.
    pub fn run(&self, store: &mut Store, map: &mut GameMap)
        requires
            old(store).wf(),
            old(map).wf(),
            indexes(*old(map), old(store)@),
        ensures
            final(store).wf(),
            final(map).wf(),
            indexes(*final(map), final(store)@),
            final(store)@.len() == old(store)@.len(),
            forall|e: int| 0 <= e < old(store)@.len() ==> (#[trigger] final(store)@[e]).is_some() == old(store)@[e].is_some()
                && (old(store)@[e].is_some() ==> moved_ok(old(store)@[e].unwrap(), final(store)@[e].unwrap())
                    && moves_exactly(old(store)@, final(store)@, *old(map), e)),
            final(map).spec_width() == old(map).spec_width(),
            final(map).spec_height() == old(map).spec_height(),
            final(map).spec_round() == old(map).spec_round(),
            final(map).spec_money() == old(map).spec_money(),
            final(map).spec_farms() == old(map).spec_farms(),
            final(map).spec_houses() == old(map).spec_houses(),
    {
        let ghost s0 = store@;
        let ghost m0 = *map;
        let n = store.len();
        proof {
            store.lemma_len_bound();
        }
        let mut e: usize = 0;
        while e < n
            invariant
                store.wf(),
                map.wf(),
                indexes(*map, store@),
                n == s0.len(),
                n <= usize::MAX,
                store@.len() == n,
                e <= n,
                forall|k: int| 0 <= k < e ==> (#[trigger] store@[k]).is_some() == s0[k].is_some()
                    && (s0[k].is_some() ==> moved_ok(s0[k].unwrap(), store@[k].unwrap()) && moves_exactly(s0, store@, m0, k)),
                forall|k: int| e <= k < n ==> #[trigger] store@[k] == s0[k],
                map.spec_width() == old(map).spec_width(),
                map.spec_height() == old(map).spec_height(),
                map.spec_round() == old(map).spec_round(),
                map.spec_money() == old(map).spec_money(),
                map.spec_farms() == old(map).spec_farms(),
                map.spec_houses() == old(map).spec_houses(),
                m0 == *old(map),
            decreases n - e,
        {
            proof {
                map.lemma_dims();
            }
            let ghost before_turn = store@;
            let ghost m_turn = *map;
            if let Some(rec) = store.get(e) {
                let mut r2 = rec;
                r2.moving = None;
                let mut target: Option<Position> = None;
                if let (Some(p), Some(d)) = (rec.position, rec.moving) {
                    if let Some(q) = p.after(&d) {
                        if map.in_bounds(q.x, q.y) {
                            proof {
                                lemma_free_cell(m_turn, before_turn, q);
                            }
                            if map.get_entity(q.x, q.y).is_none() {
                                target = Some(q);
                            }
                        }
                        proof {
                            assert(q == stepped(p, d));
                        }
                    }
                }
                proof {
                    if rec.position.is_some() && rec.moving.is_some() {
                        let p = rec.position.unwrap();
                        let d = rec.moving.unwrap();
                        let dest = step(p, d);
                        let q = stepped(p, d);
                        assert(target == if m_turn.in_map(dest.0, dest.1) && (forall|j: int| #[trigger] pos_of(before_turn, j) != Some(q)) {
                            Some(q)
                        } else {
                            None
                        });
                    } else {
                        assert(target.is_none());
                    }
                }
                let ghost sb = store@;
                let ghost mb = *map;
                match target {
                    Some(q) => {
                        let p = rec.position.unwrap();
                        proof {
                            assert(pos_of(sb, e as int) == Some(p));
                            assert(mb.cell(p.x as int, p.y as int) == Some(e));
                        }
                        map.clear_entity(p.x, p.y);
                        map.set_entity(q.x, q.y, e);
                        r2.position = Some(q);
                        store.set(e, r2);
                        proof {
                            assert(pos_of(store@, e as int) == Some(q));
                            assert forall|k: int| #[trigger] pos_of(store@, k).is_some() implies map.in_map(pos_of(store@, k).unwrap().x as int, pos_of(store@, k).unwrap().y as int)
                                && map.cell(pos_of(store@, k).unwrap().x as int, pos_of(store@, k).unwrap().y as int) == Some(k as usize) by {
                                if k != e as int {
                                    assert(pos_of(store@, k) == pos_of(sb, k));
                                    let pk = pos_of(sb, k).unwrap();
                                    assert(mb.cell(pk.x as int, pk.y as int) == Some(k as usize));
                                    assert((pk.x as int, pk.y as int) != (q.x as int, q.y as int));
                                    assert((pk.x as int, pk.y as int) != (p.x as int, p.y as int));
                                }
                            }
                            assert forall|x: int, y: int| map.in_map(x, y) && #[trigger] map.cell(x, y).is_some()
                                implies pos_of(store@, map.cell(x, y).unwrap() as int) == Some(Position { x: x as i32, y: y as i32 }) by {
                                if (x, y) == (q.x as int, q.y as int) {
                                } else {
                                    assert((x, y) != (p.x as int, p.y as int));
                                    assert(mb.cell(x, y) == map.cell(x, y));
                                    let c = map.cell(x, y).unwrap();
                                    assert(pos_of(sb, c as int) == Some(Position { x: x as i32, y: y as i32 }));
                                    if c == e {
                                        assert(x == p.x as int && y == p.y as int);
                                    }
                                    assert(pos_of(store@, c as int) == pos_of(sb, c as int));
                                }
                            }
                        }
                    },
                    None => {
                        store.set(e, r2);
                        proof {
                            assert forall|k: int| #[trigger] pos_of(store@, k) == pos_of(sb, k) by {
                            }
                            assert forall|k: int| #[trigger] pos_of(store@, k).is_some() implies map.in_map(pos_of(store@, k).unwrap().x as int, pos_of(store@, k).unwrap().y as int)
                                && map.cell(pos_of(store@, k).unwrap().x as int, pos_of(store@, k).unwrap().y as int) == Some(k as usize) by {
                                assert(pos_of(store@, k) == pos_of(sb, k));
                            }
                            assert forall|x: int, y: int| map.in_map(x, y) && #[trigger] map.cell(x, y).is_some()
                                implies pos_of(store@, map.cell(x, y).unwrap() as int) == Some(Position { x: x as i32, y: y as i32 }) by {
                                assert(pos_of(store@, map.cell(x, y).unwrap() as int) == pos_of(sb, map.cell(x, y).unwrap() as int));
                            }
                        }
                    },
                }
                proof {
                    assert forall|j: int| #[trigger] pos_at_turn(s0, store@, e as int, j) == pos_of(before_turn, j) by {
                        if 0 <= j < e {
                            assert(store@[j] == before_turn[j]);
                        } else if e <= j < n {
                            assert(before_turn[j] == s0[j]);
                        }
                    }
                    if rec.position.is_some() && rec.moving.is_some() {
                        let q = stepped(rec.position.unwrap(), rec.moving.unwrap());
                        if forall|j: int| #[trigger] pos_of(before_turn, j) != Some(q) {
                            assert forall|k: int| #[trigger] pos_at_turn(s0, store@, e as int, k) != Some(q) by {
                                assert(pos_at_turn(s0, store@, e as int, k) == pos_of(before_turn, k));
                            }
                        }
                        if free_at_turn(s0, store@, e as int, q) {
                            assert forall|k: int| #[trigger] pos_of(before_turn, k) != Some(q) by {
                                assert(pos_at_turn(s0, store@, e as int, k) == pos_of(before_turn, k));
                            }
                        }
                    }
                    assert(moves_exactly(s0, store@, m0, e as int));
                }
            }
            proof {
                assert(store@[e as int].is_some() == s0[e as int].is_some());
                assert forall|k: int| 0 <= k < e + 1 && s0[k].is_some() implies moves_exactly(s0, store@, m0, k) by {
                    assert forall|j: int| #[trigger] pos_at_turn(s0, store@, k, j) == pos_at_turn(s0, before_turn, k, j) by {
                        if 0 <= j < k && k <= e {
                            assert(store@[j] == before_turn[j]);
                        }
                    }
                    if k < e {
                        assert(moves_exactly(s0, before_turn, m0, k));
                        assert(store@[k] == before_turn[k]);
                        lemma_moves_exactly_frame(s0, before_turn, store@, m0, k);
                    }
                }
            }
            e = e + 1;
        }
    }
}

} // verus!
