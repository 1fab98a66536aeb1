//! Combat: blocked moves become melee attacks, attacks cost health, and the fallen leave.
use vstd::prelude::*;
use crate::components::{Attacking, Health, HealthState, Position, step};
use crate::logger::{LogMessage, Logs};
use crate::map::{GameMap, indexes, pos_of};
use crate::store::{EntityRecord, Store};

verus! {

/// The record of `e` once its move has been checked against the map: a move onto an occupied
/// cell is dropped, and becomes an attack where the occupant has health.
pub open spec fn converted(s: Seq<Option<EntityRecord>>, map: GameMap, e: int) -> Option<EntityRecord> {
    if s[e].is_some() && s[e].unwrap().position.is_some() && s[e].unwrap().moving.is_some() {
        let r = s[e].unwrap();
        let dest = step(r.position.unwrap(), r.moving.unwrap());
        if map.in_map(dest.0, dest.1) && map.cell(dest.0, dest.1).is_some() {
            let t = map.cell(dest.0, dest.1).unwrap() as int;
            if 0 <= t < s.len() && s[t].is_some() && s[t].unwrap().health.is_some() {
                Some(EntityRecord { moving: None, attacking: Some(Attacking { target: t as usize }), ..r })
            } else {
                Some(EntityRecord { moving: None, ..r })
            }
        } else {
            s[e]
        }
    } else {
        s[e]
    }
}

/// Turns moves into occupied cells into melee attacks.
pub struct ConvertMovementToMeleeAttackSystem;

impl ConvertMovementToMeleeAttackSystem {
    pub fn run(&self, store: &mut Store, map: &GameMap)
        requires
            old(store).wf(),
            map.wf(),
        ensures
            final(store).wf(),
            final(store)@.len() == old(store)@.len(),
            forall|e: int| 0 <= e < old(store)@.len() ==> #[trigger] final(store)@[e] == converted(old(store)@, *map, e),
    {
        let ghost s0 = store@;
        let n = store.len();
        let mut e: usize = 0;
        while e < n
            invariant
                store.wf(),
                map.wf(),
                n == s0.len(),
                store@.len() == n,
                e <= n,
                forall|k: int| 0 <= k < e ==> #[trigger] store@[k] == converted(s0, *map, k),
                forall|k: int| e <= k < n ==> #[trigger] store@[k] == s0[k],
                forall|k: int| 0 <= k < n ==> (#[trigger] store@[k]).is_some() == s0[k].is_some()
                    && (store@[k].is_some() ==> store@[k].unwrap().health == s0[k].unwrap().health),
            decreases n - e,
        {
            proof {
                map.lemma_dims();
            }
            if let Some(rec) = store.get(e) {
                if let (Some(p), Some(d)) = (rec.position, rec.moving) {
                    if let Some(q) = p.after(&d) {
                        if let Some(t) = map.get_entity(q.x, q.y) {
                            let mut r2 = rec;
                            r2.moving = None;
                            if let Some(tr) = store.get(t) {
                                if tr.health.is_some() {
                                    r2.attacking = Some(Attacking::new(t));
                                }
                            }
                            store.set(e, r2);
                            proof {
                                assert(store@[e as int] == converted(s0, *map, e as int));
                            }
                        }
                    }
                }
            }
            assert(store@[e as int] == converted(s0, *map, e as int));
            e = e + 1;
        }
    }
}

/// Health after `k` blows of one point each, stopping at zero.
pub open spec fn after_blows(r: EntityRecord, k: nat) -> EntityRecord {
    match r.health {
        Some(h) => EntityRecord {
            health: Some(Health { amount: if h.amount >= k { (h.amount - k) as u8 } else { 0u8 }, maximum: h.maximum }),
            ..r
        },
        None => r,
    }
}

/// Entity `e` lives and attacks `t`.
pub open spec fn strikes(s: Seq<Option<EntityRecord>>, e: int, t: int) -> bool {
    &&& 0 <= e < s.len()
    &&& s[e].is_some()
    &&& s[e].unwrap().attacking.is_some()
    &&& s[e].unwrap().attacking.unwrap().target == t
}

/// Where a blow of `a` on `t` is logged: the target's cell (the attacker's where the target
/// has none).
pub open spec fn blow_position(a: EntityRecord, t: EntityRecord) -> (i32, i32) {
    match t.position {
        Some(p) => (p.x, p.y),
        None => match a.position {
            Some(p) => (p.x, p.y),
            None => (0, 0),
        },
    }
}

/// How many of the first `n` entities strike `t`.
pub open spec fn blows(s: Seq<Option<EntityRecord>>, t: int, n: int) -> nat
    decreases n,
{
    if n <= 0 {
        0
    } else {
        blows(s, t, n - 1) + if strikes(s, n - 1, t) { 1nat } else { 0nat }
    }
}

/// The log of the blows that the first `n` entities land on targets with health, in id order,
/// for each blow where both sides have a glyph: attacker and target glyphs, the target's cell,
/// and whether that blow brought the target's health to zero.
pub open spec fn blow_log(s: Seq<Option<EntityRecord>>, n: int) -> Seq<LogMessage>
    decreases n,
{
    if n <= 0 {
        Seq::empty()
    } else {
        let prev = blow_log(s, n - 1);
        let e = n - 1;
        if 0 <= e < s.len() && s[e].is_some() && s[e].unwrap().attacking.is_some() && s[e].unwrap().renderable.is_some() {
            let t = s[e].unwrap().attacking.unwrap().target as int;
            if 0 <= t < s.len() && s[t].is_some() && s[t].unwrap().health.is_some() && s[t].unwrap().renderable.is_some() {
                prev.push(LogMessage::Attacked {
                    attacker: s[e].unwrap().renderable.unwrap().glyph,
                    target: s[t].unwrap().renderable.unwrap().glyph,
                    position: blow_position(s[e].unwrap(), s[t].unwrap()),
                    defeated: s[t].unwrap().health.unwrap().amount <= blows(s, t, n),
                })
            } else {
                prev
            }
        } else {
            prev
        }
    }
}

/// Applies every attack: the target loses one health point per attacker, each blow is logged,
/// and every attack ends.
pub struct ApplyAttackSystem;

impl ApplyAttackSystem {
    pub fn run(&self, store: &mut Store, logs: &mut Logs)
        requires
            old(store).wf(),
        ensures
            final(store).wf(),
            final(store)@.len() == old(store)@.len(),
            forall|e: int| 0 <= e < old(store)@.len() ==> #[trigger] final(store)@[e] == match old(store)@[e] {
                Some(r) => Some(EntityRecord { attacking: None, ..after_blows(r, blows(old(store)@, e, old(store)@.len() as int)) }),
                None => None,
            },
            final(logs)@ == old(logs)@ + blow_log(old(store)@, old(store)@.len() as int),
    {
        let ghost s0 = store@;
        let n = store.len();
        let mut e: usize = 0;
        while e < n
            invariant
                store.wf(),
                n == s0.len(),
                store@.len() == n,
                e <= n,
                logs@ == old(logs)@ + blow_log(s0, e as int),
                forall|k: int| 0 <= k < n ==> #[trigger] store@[k] == match s0[k] {
                    Some(r) => Some(after_blows(r, blows(s0, k, e as int))),
                    None => None,
                },
            decreases n - e,
        {
            let ghost before = store@;
            if let Some(rec) = store.get(e) {
                proof {
                    assert(rec == after_blows(s0[e as int].unwrap(), blows(s0, e as int, e as int)));
                }
                if let Some(a) = rec.attacking {
                    let t = a.target;
                    if let Some(tr) = store.get(t) {
                        if let Some(h0) = tr.health {
                            let mut h = h0;
                            let state = h.reduce(1);
                            let mut tr2 = tr;
                            tr2.health = Some(h);
                            store.set(t, tr2);
                            if let (Some(rd), Some(trd)) = (rec.renderable, tr.renderable) {
                                let defeated = match state {
                                    HealthState::Defeated => true,
                                    HealthState::Alive => false,
                                };
                                let position = match (tr.position, rec.position) {
                                    (Some(tp), _) => (tp.x, tp.y),
                                    (None, Some(ap)) => (ap.x, ap.y),
                                    (None, None) => (0, 0),
                                };
                                logs.add(LogMessage::Attacked { attacker: rd.glyph, target: trd.glyph, position, defeated });
                            }
                        }
                    }
                }
            }
            proof {
                assert(logs@ =~= old(logs)@ + blow_log(s0, e + 1));
                assert forall|k: int| 0 <= k < n implies #[trigger] store@[k] == match s0[k] {
                    Some(r) => Some(after_blows(r, blows(s0, k, e + 1))),
                    None => None,
                } by {
                    assert(blows(s0, k, e + 1) == blows(s0, k, e as int) + if strikes(s0, e as int, k) { 1nat } else { 0nat });
                }
            }
            e = e + 1;
        }
        let ghost s1 = store@;
        let mut e: usize = 0;
        while e < n
            invariant
                store.wf(),
                n == s1.len(),
                store@.len() == n,
                e <= n,
                forall|k: int| 0 <= k < e ==> #[trigger] store@[k] == match s1[k] {
                    Some(r) => Some(EntityRecord { attacking: None, ..r }),
                    None => None,
                },
                forall|k: int| e <= k < n ==> #[trigger] store@[k] == s1[k],
            decreases n - e,
        {
            if let Some(rec) = store.get(e) {
                let mut r2 = rec;
                r2.attacking = None;
                store.set(e, r2);
            }
            e = e + 1;
        }
    }
}

/// The record of an entity whose health reached zero: health gives way to the defeated mark.
pub open spec fn defeat(r: EntityRecord) -> EntityRecord {
    if r.health.is_some() && r.health.unwrap().amount == 0 {
        EntityRecord { health: None, defeated: true, ..r }
    } else {
        r
    }
}

/// Marks every entity with zero health as defeated.
pub struct DefeatSystem;

impl DefeatSystem {
    pub fn run(&self, store: &mut Store)
        requires
            old(store).wf(),
        ensures
            final(store).wf(),
            final(store)@.len() == old(store)@.len(),
            forall|e: int| 0 <= e < old(store)@.len() ==> #[trigger] final(store)@[e] == match old(store)@[e] {
                Some(r) => Some(defeat(r)),
                None => None,
            },
    {
        let ghost s0 = store@;
        let n = store.len();
        let mut e: usize = 0;
        while e < n
            invariant
                store.wf(),
                n == s0.len(),
                store@.len() == n,
                e <= n,
                forall|k: int| 0 <= k < e ==> #[trigger] store@[k] == match s0[k] {
                    Some(r) => Some(defeat(r)),
                    None => None,
                },
                forall|k: int| e <= k < n ==> #[trigger] store@[k] == s0[k],
            decreases n - e,
        {
            if let Some(rec) = store.get(e) {
                if let Some(h) = rec.health {
                    if h.amount == 0 {
                        let mut r2 = rec;
                        r2.health = None;
                        r2.defeated = true;
                        store.set(e, r2);
                    }
                }
            }
            e = e + 1;
        }
    }
}

/// Destroys every entity marked defeated, and frees its cell.
pub struct RemoveDefeatedSystem;

impl RemoveDefeatedSystem {
    pub fn run(&self, store: &mut Store, map: &mut GameMap)
        requires
            old(store).wf(),
            old(map).wf(),
            indexes(*old(map), old(store)@),
        ensures
            final(store).wf(),
            final(map).wf(),
            indexes(*final(map), final(store)@),
            final(store)@.len() == old(store)@.len(),
            forall|e: int| 0 <= e < old(store)@.len() ==> #[trigger] final(store)@[e] == match old(store)@[e] {
                Some(r) => if r.defeated { None } else { Some(r) },
                None => None,
            },
            final(map).spec_width() == old(map).spec_width(),
            final(map).spec_height() == old(map).spec_height(),
            final(map).spec_round() == old(map).spec_round(),
            final(map).spec_money() == old(map).spec_money(),
            final(map).spec_farms() == old(map).spec_farms(),
            final(map).spec_houses() == old(map).spec_houses(),
    {
        let ghost s0 = store@;
        let n = store.len();
        proof {
            store.lemma_len_bound();
        }
        let mut e: usize = 0;
        while e < n
            invariant
                store.wf(),
                map.wf(),
                indexes(*map, store@),
                n == s0.len(),
                n <= usize::MAX,
                store@.len() == n,
                e <= n,
                forall|k: int| 0 <= k < e ==> #[trigger] store@[k] == match s0[k] {
                    Some(r) => if r.defeated { None } else { Some(r) },
                    None => None,
                },
                forall|k: int| e <= k < n ==> #[trigger] store@[k] == s0[k],
                map.spec_width() == old(map).spec_width(),
                map.spec_height() == old(map).spec_height(),
                map.spec_round() == old(map).spec_round(),
                map.spec_money() == old(map).spec_money(),
                map.spec_farms() == old(map).spec_farms(),
                map.spec_houses() == old(map).spec_houses(),
            decreases n - e,
        {
            if let Some(rec) = store.get(e) {
                if rec.defeated {
                    let ghost sb = store@;
                    let ghost mb = *map;
                    if let Some(p) = rec.position {
                        proof {
                            assert(pos_of(sb, e as int).is_some());
                        }
                        map.clear_entity(p.x, p.y);
                    }
                    store.destroy(e);
                    proof {
                        assert forall|k: int| #[trigger] pos_of(store@, k).is_some() implies map.in_map(pos_of(store@, k).unwrap().x as int, pos_of(store@, k).unwrap().y as int)
                            && map.cell(pos_of(store@, k).unwrap().x as int, pos_of(store@, k).unwrap().y as int) == Some(k as usize) by {
                            assert(pos_of(sb, k) == pos_of(store@, k));
                            assert(pos_of(sb, k).is_some());
                            if rec.position.is_some() {
                                assert(pos_of(sb, k) != pos_of(sb, e as int)) by {
                                    assert(mb.cell(pos_of(sb, k).unwrap().x as int, pos_of(sb, k).unwrap().y as int) == Some(k as usize));
                                }
                            }
                        }
                        assert forall|x: int, y: int| map.in_map(x, y) && #[trigger] map.cell(x, y).is_some()
                            implies pos_of(store@, map.cell(x, y).unwrap() as int) == Some(Position { x: x as i32, y: y as i32 }) by {
                            assert(mb.cell(x, y) == map.cell(x, y));
                            assert(mb.cell(x, y).is_some());
                            let c = map.cell(x, y).unwrap();
                            assert(pos_of(sb, c as int) == Some(Position { x: x as i32, y: y as i32 }));
                            if c == e {
                                mb.lemma_dims();
                                assert(rec.position.is_some());
                                assert(x == rec.position.unwrap().x as int && y == rec.position.unwrap().y as int);
                                assert(map.cell(x, y).is_none());
                            } else {
                                assert(pos_of(store@, c as int) == pos_of(sb, c as int));
                            }
                        }
                    }
                }
            }
            e = e + 1;
        }
    }
}

} // verus!
