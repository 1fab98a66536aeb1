//! Trees slowly get tougher between rounds.
use vstd::prelude::*;
use bracket_lib::random::RandomNumberGenerator;
use crate::components::{Glyph, Health};
use crate::rng::rng_range;
use crate::store::{EntityRecord, Store};

verus! {

/// The record is a tree with health.
pub open spec fn growing_tree(r: EntityRecord) -> bool {
    &&& r.health.is_some()
    &&& r.renderable.is_some()
    &&& r.renderable.unwrap().glyph == Glyph::Tree
}

/// The tree's maximum health, one higher (stopping at `u8::MAX`).
pub open spec fn grown(r: EntityRecord) -> EntityRecord {
    let h = r.health.unwrap();
    EntityRecord {
        health: Some(Health { amount: h.amount, maximum: if h.maximum < 255 { (h.maximum + 1) as u8 } else { 255u8 } }),
        ..r
    }
}

/// The record after a draw from `0..100`: a tree grows exactly when the draw is below 20.
pub fn grow_on_draw(rec: EntityRecord, draw: usize) -> (r: EntityRecord)
    ensures
        r == if growing_tree(rec) && draw < 20 { grown(rec) } else { rec },
{
    if let (Some(h0), Some(rd)) = (rec.health, rec.renderable) {
        if rd.glyph == Glyph::Tree && draw < 20 {
            let mut h = h0;
            h.increase(1);
            let mut r2 = rec;
            r2.health = Some(h);
            return r2;
        }
    }
    rec
}

fn growing(rec: &EntityRecord) -> (r: bool)
    ensures
        r == growing_tree(*rec),
{
    match (rec.health, rec.renderable) {
        (Some(_), Some(rd)) => rd.glyph == Glyph::Tree,
        _ => false,
    }
}

pub struct TreeGrowthSystem;

impl TreeGrowthSystem {
    /// Each tree grows with a chance of one in five.
    pub fn run(&self, store: &mut Store, rng: &mut RandomNumberGenerator)
        requires
            old(store).wf(),
        ensures
            final(store).wf(),
            final(store)@.len() == old(store)@.len(),
            forall|e: int| 0 <= e < old(store)@.len() ==> #[trigger] final(store)@[e] == old(store)@[e]
                || (old(store)@[e].is_some() && growing_tree(old(store)@[e].unwrap())
                    && final(store)@[e] == Some(grown(old(store)@[e].unwrap()))),
    {
        let ghost s0 = store@;
        let n = store.len();
        let mut e: usize = 0;
        while e < n
            invariant
                store.wf(),
                n == s0.len(),
                store@.len() == n,
                e <= n,
                forall|k: int| 0 <= k < n ==> #[trigger] store@[k] == s0[k]
                    || (k < e && s0[k].is_some() && growing_tree(s0[k].unwrap()) && store@[k] == Some(grown(s0[k].unwrap()))),
            decreases n - e,
        {
            if let Some(rec) = store.get(e) {
                if growing(&rec) {
                    let draw = rng_range(rng, 0, 100);
                    let r2 = grow_on_draw(rec, draw);
                    store.set(e, r2);
                }
            }
            e = e + 1;
        }
    }
}

} // verus!
