//! The decision stage: every computer-controlled entity declares where it moves this turn.
use vstd::prelude::*;
use bracket_lib::random::RandomNumberGenerator;
use crate::components::{AI, Moving, Position, dist2};
use crate::game::RunState;
use crate::rng::rng_slice_entry;
use crate::store::{EntityRecord, Store};

verus! {

pub open spec fn abs(v: int) -> int {
    if v < 0 { -v } else { v }
}

/// One step towards `to` along the axis with the larger offset; vertical on a tie, and up
/// where the vertical offset is not positive.
pub open spec fn best_dir(from: Position, to: Position) -> Moving {
    let dx = to.x - from.x;
    let dy = to.y - from.y;
    if abs(dx) > abs(dy) {
        if dx > 0 { Moving::Right } else { Moving::Left }
    } else if dy > 0 {
        Moving::Down
    } else {
        Moving::Up
    }
}

/// Returns a direction to move towards a target.
pub fn best_direction(from: &Position, to: &Position) -> (r: Moving)
    ensures
        r == best_dir(*from, *to),
{
    let x_diff: i64 = to.x as i64 - from.x as i64;
    let y_diff: i64 = to.y as i64 - from.y as i64;
    let ax: i64 = if x_diff < 0 { -x_diff } else { x_diff };
    let ay: i64 = if y_diff < 0 { -y_diff } else { y_diff };
    if ax > ay {
        if x_diff > 0 { Moving::Right } else { Moving::Left }
    } else if y_diff > 0 {
        Moving::Down
    } else {
        Moving::Up
    }
}

/// Entity `e` lives, carries `which` marker (player or town) and stands on the board.
pub open spec fn tagged_at(s: Seq<Option<EntityRecord>>, e: int, player: bool) -> bool {
    &&& 0 <= e < s.len()
    &&& s[e].is_some()
    &&& s[e].unwrap().position.is_some()
    &&& if player { s[e].unwrap().player } else { s[e].unwrap().town }
}

/// The position of the first player among the first `n` entities.
pub open spec fn first_player(s: Seq<Option<EntityRecord>>, n: int) -> Option<Position>
    decreases n,
{
    if n <= 0 {
        None
    } else if first_player(s, n - 1).is_some() {
        first_player(s, n - 1)
    } else if tagged_at(s, n - 1, true) {
        s[n - 1].unwrap().position
    } else {
        None
    }
}

/// The positions of the town entities among the first `n`, in id order.
pub open spec fn town_positions(s: Seq<Option<EntityRecord>>, n: int) -> Seq<Position>
    decreases n,
{
    if n <= 0 {
        Seq::empty()
    } else if tagged_at(s, n - 1, false) {
        town_positions(s, n - 1).push(s[n - 1].unwrap().position.unwrap())
    } else {
        town_positions(s, n - 1)
    }
}

/// The first of the nearest positions of `ts` to `p`.
pub open spec fn nearest(ts: Seq<Position>, p: Position) -> Option<Position>
    decreases ts.len(),
{
    if ts.len() == 0 {
        None
    } else {
        let prev = nearest(ts.drop_last(), p);
        if prev.is_none() || dist2(p, ts.last()) < dist2(p, prev.unwrap()) {
            Some(ts.last())
        } else {
            prev
        }
    }
}

/// The entity acts this turn: it lives, has a policy and a position, and is not defeated.
pub open spec fn ai_actor(s: Seq<Option<EntityRecord>>, e: int) -> bool {
    &&& 0 <= e < s.len()
    &&& s[e].is_some()
    &&& s[e].unwrap().ai.is_some()
    &&& s[e].unwrap().position.is_some()
    &&& !s[e].unwrap().defeated
}

/// `d` is a direction that the policy of actor `e` may pick: a monster next to the player
/// attacks it; otherwise a wanderer goes anywhere, a town raider towards the nearest town
/// entity (the origin where there is none) and a hunter towards the player.
pub open spec fn ai_choice(r: EntityRecord, player: Position, towns: Seq<Position>, d: Moving) -> bool {
    let p = r.position.unwrap();
    if r.monster && dist2(p, player) == 1 {
        d == best_dir(p, player)
    } else {
        match r.ai.unwrap() {
            AI::Wander => true,
            AI::PrioritizeTown => d == best_dir(p, match nearest(towns, p) {
                Some(t) => t,
                None => Position { x: 0, y: 0 },
            }),
            AI::PrioritizePlayer => d == best_dir(p, player),
        }
    }
}

/// What the decision stage does to the entities: nothing unless it is the monsters' turn and a
/// player stands on the board; then each actor gets a move intent its policy allows, and nothing
/// else changes.
pub open spec fn ai_stage(s0: Seq<Option<EntityRecord>>, s1: Seq<Option<EntityRecord>>, state: RunState) -> bool {
    &&& s1.len() == s0.len()
    &&& (state != RunState::MonsterTurn || first_player(s0, s0.len() as int).is_none()) ==> s1 == s0
    &&& state == RunState::MonsterTurn && first_player(s0, s0.len() as int).is_some()
        ==> forall|e: int| 0 <= e < s0.len() ==> if ai_actor(s0, e) {
            (#[trigger] s1[e]).is_some()
            && s1[e].unwrap().moving.is_some()
            && s1[e].unwrap() == EntityRecord { moving: s1[e].unwrap().moving, ..s0[e].unwrap() }
            && ai_choice(s0[e].unwrap(), first_player(s0, s0.len() as int).unwrap(),
                town_positions(s0, s0.len() as int), s1[e].unwrap().moving.unwrap())
        } else {
            s1[e] == s0[e]
        }
}

pub struct AISystem;

impl AISystem {
    /// On the monsters' turn, and where a player stands on the board, gives every actor a
    /// move intent chosen by its policy; otherwise does nothing.
    pub fn run(&self, store: &mut Store, state: RunState, rng: &mut RandomNumberGenerator)
        requires
            old(store).wf(),
        ensures
            final(store).wf(),
            final(store)@.len() == old(store)@.len(),
            ai_stage(old(store)@, final(store)@, state),
            (state != RunState::MonsterTurn || first_player(old(store)@, old(store)@.len() as int).is_none())
                ==> *final(rng) == *old(rng),
    {
        if state != RunState::MonsterTurn {
            return;
        }
        let ghost s0 = store@;
        let n = store.len();

        // The first player on the board, and the town entities.
        let mut player: Option<Position> = None;
        let mut towns: Vec<Position> = Vec::new();
        let mut k: usize = 0;
        while k < n
            invariant
                store.wf(),
                store@ == s0,
                n == s0.len(),
                k <= n,
                player == first_player(s0, k as int),
                towns@ == town_positions(s0, k as int),
            decreases n - k,
        {
            if let Some(rec) = store.get(k) {
                if let Some(p) = rec.position {
                    if player.is_none() && rec.player {
                        player = Some(p);
                    }
                    if rec.town {
                        towns.push(p);
                    }
                }
            }
            k = k + 1;
        }
        let player_position = match player {
            Some(p) => p,
            None => {
                return;
            },
        };

        let mut e: usize = 0;
        while e < n
            invariant
                store.wf(),
                n == s0.len(),
                store@.len() == n,
                e <= n,
                player_position == first_player(s0, n as int).unwrap(),
                towns@ == town_positions(s0, n as int),
                forall|k2: int| 0 <= k2 < e ==> if ai_actor(s0, k2) {
                    (#[trigger] store@[k2]).is_some()
                    && store@[k2].unwrap().moving.is_some()
                    && store@[k2].unwrap() == EntityRecord { moving: store@[k2].unwrap().moving, ..s0[k2].unwrap() }
                    && ai_choice(s0[k2].unwrap(), player_position, towns@, store@[k2].unwrap().moving.unwrap())
                } else {
                    store@[k2] == s0[k2]
                },
                forall|k2: int| e <= k2 < n ==> #[trigger] store@[k2] == s0[k2],
            decreases n - e,
        {
            if let Some(rec) = store.get(e) {
                if let (Some(ai), Some(position)) = (rec.ai, rec.position) {
                    if !rec.defeated {
                        let d = if rec.monster && position.distance2(&player_position) == 1 {
                            best_direction(&position, &player_position)
                        } else {
                            match ai {
                                AI::Wander => {
                                    let dirs: Vec<Moving> = vec![Moving::Up, Moving::Down, Moving::Left, Moving::Right];
                                    match rng_slice_entry(rng, dirs.as_slice()) {
                                        Some(d) => d,
                                        None => Moving::Up,
                                    }
                                },
                                AI::PrioritizeTown => {
                                    let target = nearest_position(&towns, &position);
                                    best_direction(&position, &target)
                                },
                                AI::PrioritizePlayer => best_direction(&position, &player_position),
                            }
                        };
                        let mut r2 = rec;
                        r2.moving = Some(d);
                        store.set(e, r2);
                    }
                }
            }
            e = e + 1;
        }
    }
}

/// The first of the positions of `ts` nearest to `p`, or the origin where `ts` is empty.
fn nearest_position(ts: &Vec<Position>, p: &Position) -> (r: Position)
    ensures
        r == match nearest(ts@, *p) {
            Some(t) => t,
            None => Position { x: 0, y: 0 },
        },
{
    let mut best: Option<Position> = None;
    let mut best_d: i128 = 0;
    let mut i: usize = 0;
    while i < ts.len()
        invariant
            i <= ts@.len(),
            best == nearest(ts@.take(i as int), *p),
            best.is_some() ==> best_d == dist2(*p, best.unwrap()),
        decreases ts@.len() - i,
    {
        let t = ts[i];
        let d = p.distance2(&t);
        proof {
            assert(ts@.take(i + 1).drop_last() =~= ts@.take(i as int));
        }
        if best.is_none() || d < best_d {
            best = Some(t);
            best_d = d;
        }
        i = i + 1;
    }
    proof {
        assert(ts@.take(ts@.len() as int) =~= ts@);
    }
    match best {
        Some(t) => t,
        None => Position::new(0, 0),
    }
}

} // verus!
