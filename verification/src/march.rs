//! How battalions move: marches with standing orders, one-hex steps, and the
//! screen against a threat.
use vstd::prelude::*;
use crate::action::{AiAction, Act};
use crate::goal::{blind_goal, find_blind_goal, goal_free, goal_hex_free};
use crate::hex::{disc, hex_distance, max_int, HexCoord};
use crate::pick::{find_least, first_where, law_first_where, least, Key};
use crate::turn::{
    enemy_distance, gathered, held_by_other, is_held_by_other, is_reserved, lemma_gathered_asks,
    lemma_gathered_len, min_enemy_dist, nearest_enemy, nearest_enemy_hex, pair, proposed, route_at, truth,
    Book, Query, StepScore, Turn, TurnView,
};
use crate::unit::BattalionUnit;

verus! {

/// How far a fresh goal may lie from the destination that is already marched
/// to before that is given up.
pub const GOAL_HYSTERESIS_RADIUS: i64 = 3;

/// How far guns stay from the enemy.
pub const ARTILLERY_MIN_STANDOFF: i64 = 2;

/// What a one-hex step is for, and which hexes it may go to.
#[derive(Debug, Clone, Copy, PartialEq, Eq, Structural)]
pub enum StepRule {
    /// Out of the front line: farther from the enemy than now.
    Withdraw { now: i64 },
    /// Guns off the front line: out of contact.
    Displace,
    /// A headquarters: farther from the enemy than now, on the leash if it can.
    Shadow { now: i64, anchor: HexCoord, leash: i32 },
    /// Raiders: out of contact.
    Evade,
    /// Nearer to a goal than now.
    Close { now: i64, goal: HexCoord },
    /// Farther from the enemy than now, and not into a ford.
    FallBack { now: i64 },
    /// Into better cover than now, not nearer to the enemy and not into a ford.
    Cover { now: i64, ground: i64 },
}

/// The cover of a hex; none off the map.
pub open spec fn cover_at(t: TurnView, h: HexCoord) -> i64 {
    match t.grid.at(h) {
        Some(c) => c.cover,
        None => 0,
    }
}

/// How a step to `h` is scored, if the rule allows it.
pub open spec fn judged(t: TurnView, rule: StepRule, h: HexCoord) -> Option<(StepScore, int, int)> {
    let d = enemy_distance(t.enemy, h);
    match rule {
        StepRule::Withdraw { now } => if d > now {
            Some((StepScore::Withdraw, d, 0))
        } else {
            None
        },
        StepRule::Displace => if d >= ARTILLERY_MIN_STANDOFF {
            Some((StepScore::Withdraw, d, 0))
        } else {
            None
        },
        StepRule::Shadow { now, anchor, leash } => if d > now {
            Some((StepScore::Shadow, d, max_int(hex_distance(h, anchor) - leash, 0)))
        } else {
            None
        },
        StepRule::Evade => if d >= 2 {
            Some((StepScore::Evade, d, 0))
        } else {
            None
        },
        StepRule::Close { now, goal } => if hex_distance(h, goal) < now {
            Some((StepScore::Close, hex_distance(h, goal), 0))
        } else {
            None
        },
        StepRule::FallBack { now } => if d > now && !t.grid.river_at(h) {
            Some((StepScore::FallBack, d, 0))
        } else {
            None
        },
        StepRule::Cover { now, ground } => if d >= now && !t.grid.river_at(h) && cover_at(t, h)
            > ground {
            Some((StepScore::Cover, 0, 0))
        } else {
            None
        },
    }
}

/// The rank of a step of battalion `who` to `h`: its score, then its hours,
/// then the hex. A hex that is held or claimed, that the rule rejects or that
/// cannot be stepped to has none.
pub open spec fn step_key(
    t: TurnView,
    b: &Book,
    who: int,
    reserved: Seq<HexCoord>,
    rule: StepRule,
) -> spec_fn(HexCoord) -> Result<Option<Key>, Query> {
    |h: HexCoord|
        if held_by_other(t.all, t.own[who].id, h) || reserved.contains(h) {
            Ok(None)
        } else {
            match judged(t, rule, h) {
                None => Ok(None),
                Some((score, distance, beyond)) => match pair(
                    b,
                    Query::Step {
                        who: who as usize,
                        hex: h,
                        score,
                        distance: distance as i64,
                        beyond: beyond as i64,
                    },
                ) {
                    Err(q) => Err(q),
                    Ok(None) => Ok(None),
                    Ok(Some((s, hours))) => Ok(
                        Some(Key { a: s as i128, b: hours as i128, c: h.q as i128, d: h.r as i128 }),
                    ),
                },
            }
        }
}

/// The best one-hex step of battalion `who` under a rule.
pub open spec fn best_step(
    t: TurnView,
    b: &Book,
    who: int,
    reserved: Seq<HexCoord>,
    rule: StepRule,
) -> Result<Option<HexCoord>, Query> {
    let exits = t.grid.exits(t.own[who].position);
    match gathered(exits, step_key(t, b, who, reserved, rule)) {
        Err(q) => Err(q),
        Ok(keys) => match least(keys) {
            Some(i) => Ok(Some(exits[i])),
            None => Ok(None),
        },
    }
}

/// The best one-hex step as an order.
pub open spec fn step_order(
    t: TurnView,
    b: &Book,
    who: int,
    reserved: Seq<HexCoord>,
    rule: StepRule,
) -> Result<Option<Act>, Query> {
    match best_step(t, b, who, reserved, rule) {
        Err(q) => Err(q),
        Ok(None) => Ok(None),
        Ok(Some(h)) => Ok(Some(Act::MoveUnit { unit_id: t.own[who].id, path: seq![h] })),
    }
}

fn judge(t: &Turn, rule: StepRule, h: HexCoord) -> (j: Option<(StepScore, i64, i64)>)
    ensures
        match j {
            Some(s) => judged(t@, rule, h) == Some((s.0, s.1 as int, s.2 as int)),
            None => judged(t@, rule, h) is None,
        },
{
    match rule {
        StepRule::Withdraw { now } => {
            let d: i64 = min_enemy_dist(h, &t.enemy);
            if d > now {
                Some((StepScore::Withdraw, d, 0))
            } else {
                None
            }
        },
        StepRule::Displace => {
            let d: i64 = min_enemy_dist(h, &t.enemy);
            if d >= ARTILLERY_MIN_STANDOFF {
                Some((StepScore::Withdraw, d, 0))
            } else {
                None
            }
        },
        StepRule::Shadow { now, anchor, leash } => {
            let d: i64 = min_enemy_dist(h, &t.enemy);
            if d > now {
                let away: i64 = h.distance(anchor) - leash as i64;
                let beyond: i64 = if away > 0 {
                    away
                } else {
                    0
                };
                Some((StepScore::Shadow, d, beyond))
            } else {
                None
            }
        },
        StepRule::Evade => {
            let d: i64 = min_enemy_dist(h, &t.enemy);
            if d >= 2 {
                Some((StepScore::Evade, d, 0))
            } else {
                None
            }
        },
        StepRule::Close { now, goal } => {
            let d: i64 = h.distance(goal);
            if d < now {
                Some((StepScore::Close, d, 0))
            } else {
                None
            }
        },
        StepRule::FallBack { now } => {
            let d: i64 = min_enemy_dist(h, &t.enemy);
            if d > now && !t.grid.is_river(h) {
                Some((StepScore::FallBack, d, 0))
            } else {
                None
            }
        },
        StepRule::Cover { now, ground } => {
            let d: i64 = min_enemy_dist(h, &t.enemy);
            if d >= now && !t.grid.is_river(h) && ground_cover(t, h) > ground {
                Some((StepScore::Cover, 0, 0))
            } else {
                None
            }
        },
    }
}

/// The cover of a hex; none off the map.
pub fn ground_cover(t: &Turn, h: HexCoord) -> (c: i64)
    ensures
        c == cover_at(t@, h),
{
    match t.grid.cell(h) {
        Some(c) => c.cover,
        None => 0,
    }
}

/// The best one-hex step of battalion `who` under a rule.
fn find_step(t: &Turn, b: &Book, who: usize, reserved: &Vec<HexCoord>, rule: StepRule) -> (r: Result<
    Option<HexCoord>,
    Query,
>)
    requires
        who < t.own@.len(),
    ensures
        r == best_step(t@, b, who as int, reserved@, rule),
{
    let id: usize = t.own[who].id;
    let exits: Vec<HexCoord> = t.grid.passable_neighbors(t.own[who].position);
    let ghost f = step_key(t@, b, who as int, reserved@, rule);
    let mut keys: Vec<Option<Key>> = Vec::new();
    let mut i: usize = 0;
    assert(exits@.take(0) =~= Seq::<HexCoord>::empty());
    while i < exits.len()
        invariant
            i <= exits@.len(),
            who < t.own@.len(),
            id == t.own@[who as int].id,
            exits@ == t.grid.exits(t.own@[who as int].position),
            f == step_key(t@, b, who as int, reserved@, rule),
            gathered(exits@.take(i as int), f) == Ok::<Seq<Option<Key>>, Query>(keys@),
        decreases exits@.len() - i,
    {
        let h = exits[i];
        assert(exits@.take(i + 1).drop_last() =~= exits@.take(i as int));
        assert(exits@.take(i + 1).last() == h);
        let mut key: Option<Key> = None;
        if !is_held_by_other(&t.all, id, h) && !is_reserved(reserved, h) {
            if let Some((score, distance, beyond)) = judge(t, rule, h) {
                match b.pair(Query::Step { who, hex: h, score, distance, beyond }) {
                    Err(q) => {
                        proof {
                            lemma_gathered_asks(exits@, f, i + 1, q);
                        }
                        return Err(q);
                    },
                    Ok(Some((s, hours))) => {
                        key = Some(
                            Key { a: s as i128, b: hours as i128, c: h.q as i128, d: h.r as i128 },
                        );
                    },
                    Ok(None) => {},
                }
            }
        }
        keys.push(key);
        i += 1;
    }
    proof {
        assert(exits@.take(exits@.len() as int) =~= exits@);
        lemma_gathered_len(exits@, f);
    }
    match find_least(&keys) {
        Some(k) => Ok(Some(exits[k])),
        None => Ok(None),
    }
}

/// The best one-hex step as an order.
pub fn order_step(t: &Turn, b: &Book, who: usize, reserved: &Vec<HexCoord>, rule: StepRule) -> (r: Result<
    Option<AiAction>,
    Query,
>)
    requires
        who < t.own@.len(),
    ensures
        proposed(r) == step_order(t@, b, who as int, reserved@, rule),
{
    match find_step(t, b, who, reserved, rule) {
        Err(q) => Err(q),
        Ok(None) => Ok(None),
        Ok(Some(h)) => {
            let mut path: Vec<HexCoord> = Vec::new();
            path.push(h);
            assert(path@ =~= seq![h]);
            Ok(Some(AiAction::MoveUnit { unit_id: t.own[who].id, path }))
        },
    }
}

/// The rank of a hex by the cost of battalion `who`'s path to it; with
/// `only_free` only hexes that it may make its destination have one.
pub open spec fn route_key(
    t: TurnView,
    b: &Book,
    who: int,
    reserved: Seq<HexCoord>,
    only_free: bool,
) -> spec_fn(HexCoord) -> Result<Option<Key>, Query> {
    |h: HexCoord|
        if only_free && !goal_free(t, reserved, t.own[who].id, h) {
            Ok(None)
        } else {
            match route_at(b, who, h) {
                Err(q) => Err(q),
                Ok(None) => Ok(None),
                Ok(Some(i)) => Ok(
                    Some(Key { a: b.routes@[i].cost as i128, b: 0, c: 0, d: 0 }),
                ),
            }
        }
}

/// The cheapest path of battalion `who` to a neighbour of the goal, by its
/// place in the book.
pub open spec fn cheapest(
    t: TurnView,
    b: &Book,
    who: int,
    reserved: Seq<HexCoord>,
    goal: HexCoord,
    only_free: bool,
) -> Result<Option<int>, Query> {
    let around = t.grid.around(goal);
    match gathered(around, route_key(t, b, who, reserved, only_free)) {
        Err(q) => Err(q),
        Ok(keys) => match least(keys) {
            Some(i) => route_at(b, who, around[i]),
            None => Ok(None),
        },
    }
}

/// Another battalion of the side that fights stands on the hex.
pub open spec fn friend_on(t: TurnView, u: BattalionUnit, h: HexCoord) -> bool {
    exists|i: int|
        0 <= i < t.all.len() && (#[trigger] t.all[i]).id != u.id && t.all[i].side == u.side
            && t.all[i].effective() && t.all[i].position == h
}

/// A path without its last hex if that is the goal.
pub open spec fn short_of(p: Seq<HexCoord>, goal: HexCoord) -> Seq<HexCoord> {
    if p.len() > 0 && p.last() == goal {
        p.drop_last()
    } else {
        p
    }
}

/// A fresh path of battalion `who` to a goal: to the goal itself, or to the
/// cheapest of its neighbours. Where a friend holds the goal, the path stops
/// short of it, or goes to the cheapest free neighbour.
pub open spec fn fresh_path(t: TurnView, b: &Book, who: int, reserved: Seq<HexCoord>, goal: HexCoord) -> Result<
    Option<Seq<HexCoord>>,
    Query,
> {
    let first = match route_at(b, who, goal) {
        Ok(None) => cheapest(t, b, who, reserved, goal, false),
        known => known,
    };
    match first {
        Err(q) => Err(q),
        Ok(None) => Ok(None),
        Ok(Some(i)) => {
            let p = b.routes@[i].path@;
            if !friend_on(t, t.own[who], goal) {
                Ok(Some(p))
            } else if short_of(p, goal).len() > 0 {
                Ok(Some(short_of(p, goal)))
            } else {
                match cheapest(t, b, who, reserved, goal, true) {
                    Err(q) => Err(q),
                    Ok(None) => Ok(None),
                    Ok(Some(j)) => Ok(Some(b.routes@[j].path@)),
                }
            }
        },
    }
}

/// The destination that the battalion already marches to is kept: it is free
/// and near the goal.
pub open spec fn keeps_destination(t: TurnView, reserved: Seq<HexCoord>, u: BattalionUnit, goal: HexCoord) -> bool {
    u.move_to matches Some(dest) && dest != u.position && hex_distance(dest, goal)
        <= GOAL_HYSTERESIS_RADIUS && goal_free(t, reserved, u.id, dest)
}

/// The path of battalion `who` towards a goal.
pub open spec fn marching_path(t: TurnView, b: &Book, who: int, reserved: Seq<HexCoord>, goal: HexCoord) -> Result<
    Option<Seq<HexCoord>>,
    Query,
> {
    let u = t.own[who];
    if keeps_destination(t, reserved, u, goal) {
        match route_at(b, who, u.move_to->0) {
            Err(q) => Err(q),
            Ok(Some(i)) => Ok(Some(b.routes@[i].path@)),
            Ok(None) => fresh_path(t, b, who, reserved, goal),
        }
    } else {
        fresh_path(t, b, who, reserved, goal)
    }
}

/// The enemies that a march keeps its distance from.
pub open spec fn looming(t: TurnView) -> Seq<BattalionUnit> {
    if t.physical_foes.len() == 0 {
        t.enemy
    } else {
        t.physical_foes
    }
}

/// The hexes that are nearer to an enemy than a standoff.
pub open spec fn too_near(foes: Seq<BattalionUnit>, standoff: i64) -> spec_fn(HexCoord) -> bool {
    |h: HexCoord| enemy_distance(foes, h) < standoff
}

/// The path up to the first hex that is too near to an enemy.
pub open spec fn cut_short(foes: Seq<BattalionUnit>, p: Seq<HexCoord>, standoff: Option<i64>) -> Seq<HexCoord> {
    match standoff {
        None => p,
        Some(ms) => match first_where(p, too_near(foes, ms)) {
            Some(i) => p.take(i),
            None => p,
        },
    }
}

/// The path without claimed hexes at its end.
pub open spec fn unclaimed(p: Seq<HexCoord>, reserved: Seq<HexCoord>) -> Seq<HexCoord>
    decreases p.len(),
{
    if p.len() > 0 && reserved.contains(p.last()) {
        unclaimed(p.drop_last(), reserved)
    } else {
        p
    }
}

/// The march of battalion `who` towards a goal: along its path, short of any
/// enemy nearer than the standoff, to a hex that nobody has claimed.
pub open spec fn approach(
    t: TurnView,
    b: &Book,
    who: int,
    reserved: Seq<HexCoord>,
    goal: Option<HexCoord>,
    standoff: Option<i64>,
) -> Result<Option<Act>, Query> {
    match goal {
        None => Ok(None),
        Some(goal) => match marching_path(t, b, who, reserved, goal) {
            Err(q) => Err(q),
            Ok(None) => Ok(None),
            Ok(Some(p)) => {
                let path = unclaimed(cut_short(looming(t), p, standoff), reserved);
                if path.len() == 0 {
                    Ok(None)
                } else {
                    Ok(Some(Act::MoveUnit { unit_id: t.own[who].id, path }))
                }
            },
        },
    }
}

fn copy_path(p: &Vec<HexCoord>) -> (c: Vec<HexCoord>)
    ensures
        c@ == p@,
{
    let mut c: Vec<HexCoord> = Vec::new();
    let mut i: usize = 0;
    while i < p.len()
        invariant
            i <= p@.len(),
            c@ =~= p@.take(i as int),
        decreases p@.len() - i,
    {
        c.push(p[i]);
        i += 1;
    }
    c
}

/// The cheapest path to a neighbour of the goal.
fn find_cheapest(
    t: &Turn,
    b: &Book,
    who: usize,
    reserved: &Vec<HexCoord>,
    goal: HexCoord,
    only_free: bool,
) -> (r: Result<Option<usize>, Query>)
    requires
        who < t.own@.len(),
    ensures
        match r {
            Ok(Some(i)) => cheapest(t@, b, who as int, reserved@, goal, only_free) == Ok::<
                Option<int>,
                Query,
            >(Some(i as int)) && i < b.routes@.len() && b.routes@[i as int].path@.len() > 0,
            Ok(None) => cheapest(t@, b, who as int, reserved@, goal, only_free) == Ok::<
                Option<int>,
                Query,
            >(None),
            Err(q) => cheapest(t@, b, who as int, reserved@, goal, only_free) == Err::<
                Option<int>,
                Query,
            >(q),
        },
{
    let id: usize = t.own[who].id;
    let around: Vec<HexCoord> = t.grid.neighbors(goal);
    let ghost f = route_key(t@, b, who as int, reserved@, only_free);
    let mut keys: Vec<Option<Key>> = Vec::new();
    let mut i: usize = 0;
    assert(around@.take(0) =~= Seq::<HexCoord>::empty());
    while i < around.len()
        invariant
            i <= around@.len(),
            who < t.own@.len(),
            id == t.own@[who as int].id,
            around@ == t.grid.around(goal),
            f == route_key(t@, b, who as int, reserved@, only_free),
            gathered(around@.take(i as int), f) == Ok::<Seq<Option<Key>>, Query>(keys@),
        decreases around@.len() - i,
    {
        let h = around[i];
        assert(around@.take(i + 1).drop_last() =~= around@.take(i as int));
        assert(around@.take(i + 1).last() == h);
        let mut key: Option<Key> = None;
        if !only_free || goal_hex_free(t, reserved, id, h) {
            match b.route(who, h) {
                Err(q) => {
                    proof {
                        lemma_gathered_asks(around@, f, i + 1, q);
                    }
                    return Err(q);
                },
                Ok(Some(k)) => {
                    key = Some(Key { a: b.routes[k].cost as i128, b: 0, c: 0, d: 0 });
                },
                Ok(None) => {},
            }
        }
        keys.push(key);
        i += 1;
    }
    proof {
        assert(around@.take(around@.len() as int) =~= around@);
        lemma_gathered_len(around@, f);
    }
    match find_least(&keys) {
        Some(k) => {
            assert(f(around@[k as int]) == Ok::<Option<Key>, Query>(keys@[k as int]));
            b.route(who, around[k])
        },
        None => Ok(None),
    }
}

fn is_friend_on(t: &Turn, u: &BattalionUnit, h: HexCoord) -> (r: bool)
    ensures
        r == friend_on(t@, *u, h),
{
    let mut i: usize = 0;
    while i < t.all.len()
        invariant
            i <= t.all@.len(),
            forall|j: int|
                0 <= j < i ==> !((#[trigger] t.all@[j]).id != u.id && t.all@[j].side == u.side
                    && t.all@[j].effective() && t.all@[j].position == h),
        decreases t.all@.len() - i,
    {
        if t.all[i].id != u.id && t.all[i].side == u.side && t.all[i].is_combat_effective()
            && t.all[i].position == h {
            assert(t.all@[i as int].id != u.id);
            return true;
        }
        i += 1;
    }
    false
}

/// The path that a lookup found, as a value.
spec fn found_path(r: Result<Option<Vec<HexCoord>>, Query>) -> Result<Option<Seq<HexCoord>>, Query> {
    match r {
        Ok(Some(p)) => Ok(Some(p@)),
        Ok(None) => Ok(None),
        Err(q) => Err(q),
    }
}

fn find_fresh_path(t: &Turn, b: &Book, who: usize, reserved: &Vec<HexCoord>, goal: HexCoord) -> (r: Result<
    Option<Vec<HexCoord>>,
    Query,
>)
    requires
        who < t.own@.len(),
    ensures
        found_path(r) == fresh_path(t@, b, who as int, reserved@, goal),
{
    let first = match b.route(who, goal) {
        Ok(None) => find_cheapest(t, b, who, reserved, goal, false),
        known => known,
    };
    match first {
        Err(q) => Err(q),
        Ok(None) => Ok(None),
        Ok(Some(i)) => {
            let mut p: Vec<HexCoord> = copy_path(&b.routes[i].path);
            if !is_friend_on(t, &t.own[who], goal) {
                return Ok(Some(p));
            }
            if p[p.len() - 1] == goal {
                let _ = p.pop();
            }
            assert(p@ =~= short_of(b.routes@[i as int].path@, goal));
            if p.len() > 0 {
                return Ok(Some(p));
            }
            match find_cheapest(t, b, who, reserved, goal, true) {
                Err(q) => Err(q),
                Ok(None) => Ok(None),
                Ok(Some(j)) => Ok(Some(copy_path(&b.routes[j].path))),
            }
        },
    }
}

fn find_path(t: &Turn, b: &Book, who: usize, reserved: &Vec<HexCoord>, goal: HexCoord) -> (r: Result<
    Option<Vec<HexCoord>>,
    Query,
>)
    requires
        who < t.own@.len(),
    ensures
        found_path(r) == marching_path(t@, b, who as int, reserved@, goal),
{
    let u = t.own[who];
    if let Some(dest) = u.move_to {
        if dest != u.position && dest.distance(goal) <= GOAL_HYSTERESIS_RADIUS && goal_hex_free(
            t,
            reserved,
            u.id,
            dest,
        ) {
            return match b.route(who, dest) {
                Err(q) => Err(q),
                Ok(Some(i)) => Ok(Some(copy_path(&b.routes[i].path))),
                Ok(None) => find_fresh_path(t, b, who, reserved, goal),
            };
        }
    }
    find_fresh_path(t, b, who, reserved, goal)
}

fn cut_path(foes: &Vec<BattalionUnit>, p: Vec<HexCoord>, standoff: Option<i64>) -> (c: Vec<HexCoord>)
    ensures
        c@ == cut_short(foes@, p@, standoff),
{
    match standoff {
        None => p,
        Some(ms) => {
            let ghost ok = too_near(foes@, ms);
            let mut c: Vec<HexCoord> = Vec::new();
            let mut i: usize = 0;
            while i < p.len()
                invariant
                    i <= p@.len(),
                    standoff == Some(ms),
                    ok == too_near(foes@, ms),
                    c@ =~= p@.take(i as int),
                    forall|j: int| 0 <= j < i ==> !ok(#[trigger] p@[j]),
                decreases p@.len() - i,
            {
                if min_enemy_dist(p[i], foes) < ms {
                    proof {
                        law_first_where(p@, ok);
                        assert(ok(p@[i as int]));
                    }
                    return c;
                }
                c.push(p[i]);
                i += 1;
            }
            proof {
                law_first_where(p@, ok);
            }
            c
        },
    }
}

fn drop_claimed(p: Vec<HexCoord>, reserved: &Vec<HexCoord>) -> (c: Vec<HexCoord>)
    ensures
        c@ == unclaimed(p@, reserved@),
{
    let mut c: Vec<HexCoord> = p;
    while c.len() > 0 && is_reserved(reserved, c[c.len() - 1])
        invariant
            unclaimed(c@, reserved@) == unclaimed(p@, reserved@),
        decreases c@.len(),
    {
        let ghost full = c@;
        let _ = c.pop();
        assert(c@ =~= full.drop_last());
    }
    c
}

/// The march of battalion `who` towards a goal.
pub fn march(
    t: &Turn,
    b: &Book,
    who: usize,
    reserved: &Vec<HexCoord>,
    goal: Option<HexCoord>,
    standoff: Option<i64>,
) -> (r: Result<Option<AiAction>, Query>)
    requires
        who < t.own@.len(),
    ensures
        proposed(r) == approach(t@, b, who as int, reserved@, goal, standoff),
{
    match goal {
        None => Ok(None),
        Some(goal) => match find_path(t, b, who, reserved, goal) {
            Err(q) => Err(q),
            Ok(None) => Ok(None),
            Ok(Some(p)) => {
                let foes: &Vec<BattalionUnit> = if t.physical_foes.len() == 0 {
                    &t.enemy
                } else {
                    &t.physical_foes
                };
                let path: Vec<HexCoord> = drop_claimed(cut_path(foes, p, standoff), reserved);
                if path.len() == 0 {
                    Ok(None)
                } else {
                    Ok(Some(AiAction::MoveUnit { unit_id: t.own[who].id, path }))
                }
            },
        },
    }
}

/// One hex towards the nearest enemy, or towards the blind goal without one.
pub open spec fn advance_step(t: TurnView, b: &Book, who: int, reserved: Seq<HexCoord>) -> Result<
    Option<Act>,
    Query,
> {
    let u = t.own[who];
    let goal = match nearest_enemy_hex(t.enemy, u.position) {
        Some(h) => Some(h),
        None => blind_goal(t, u.position),
    };
    match goal {
        None => Ok(None),
        Some(goal) => step_order(
            t,
            b,
            who,
            reserved,
            StepRule::Close { now: hex_distance(u.position, goal) as i64, goal },
        ),
    }
}

/// One hex away from the enemy.
pub open spec fn back_step(t: TurnView, b: &Book, who: int, reserved: Seq<HexCoord>) -> Result<
    Option<Act>,
    Query,
> {
    let now = enemy_distance(t.enemy, t.own[who].position) as i64;
    step_order(t, b, who, reserved, StepRule::FallBack { now })
}

/// One hex into better cover.
pub open spec fn cover_step(t: TurnView, b: &Book, who: int, reserved: Seq<HexCoord>) -> Result<
    Option<Act>,
    Query,
> {
    let u = t.own[who];
    let now = enemy_distance(t.enemy, u.position) as i64;
    step_order(t, b, who, reserved, StepRule::Cover { now, ground: cover_at(t, u.position) })
}

pub fn advance_one_hex(t: &Turn, b: &Book, who: usize, reserved: &Vec<HexCoord>) -> (r: Result<
    Option<AiAction>,
    Query,
>)
    requires
        who < t.own@.len(),
    ensures
        proposed(r) == advance_step(t@, b, who as int, reserved@),
{
    let pos = t.own[who].position;
    let goal: Option<HexCoord> = match nearest_enemy(pos, &t.enemy) {
        Some(h) => Some(h),
        None => find_blind_goal(t, pos),
    };
    match goal {
        None => Ok(None),
        Some(goal) => order_step(
            t,
            b,
            who,
            reserved,
            StepRule::Close { now: pos.distance(goal), goal },
        ),
    }
}

pub fn fall_back_one_hex(t: &Turn, b: &Book, who: usize, reserved: &Vec<HexCoord>) -> (r: Result<
    Option<AiAction>,
    Query,
>)
    requires
        who < t.own@.len(),
    ensures
        proposed(r) == back_step(t@, b, who as int, reserved@),
{
    let now: i64 = min_enemy_dist(t.own[who].position, &t.enemy);
    order_step(t, b, who, reserved, StepRule::FallBack { now })
}

pub fn shift_to_cover(t: &Turn, b: &Book, who: usize, reserved: &Vec<HexCoord>) -> (r: Result<
    Option<AiAction>,
    Query,
>)
    requires
        who < t.own@.len(),
    ensures
        proposed(r) == cover_step(t@, b, who as int, reserved@),
{
    let pos = t.own[who].position;
    let now: i64 = min_enemy_dist(pos, &t.enemy);
    let ground: i64 = ground_cover(t, pos);
    order_step(t, b, who, reserved, StepRule::Cover { now, ground })
}

/// A number that orders hexes by `q`, then by `r`.
pub open spec fn hex_rank(h: HexCoord) -> int {
    h.q * 0x1_0000_0000 + h.r
}

/// A hex of the path is a ford.
pub open spec fn fords(t: TurnView, p: Seq<HexCoord>) -> bool {
    exists|i: int| 0 <= i < p.len() && t.grid.river_at(#[trigger] p[i])
}

/// The rank of a hex as a screen of battalion `who` against a threat: one on
/// the ring at the standoff that is passable, dry, unclaimed and held by no
/// other, with a dry path to it. Hexes behind a river come first, then better
/// cover, then the cheaper path.
pub open spec fn screen_key(
    t: TurnView,
    b: &Book,
    who: int,
    reserved: Seq<HexCoord>,
    threat: HexCoord,
    standoff: int,
) -> spec_fn(HexCoord) -> Result<Option<Key>, Query> {
    |h: HexCoord|
        if hex_distance(threat, h) != standoff || held_by_other(t.all, t.own[who].id, h)
            || reserved.contains(h) || !t.grid.open_ground(h) || t.grid.river_at(h) {
            Ok(None)
        } else {
            match route_at(b, who, h) {
                Err(q) => Err(q),
                Ok(None) => Ok(None),
                Ok(Some(i)) => if fords(t, b.routes@[i].path@) {
                    Ok(None)
                } else {
                    match truth(b, Query::Shielded { from: h, threat }) {
                        Err(q) => Err(q),
                        Ok(shielded) => Ok(
                            Some(
                                Key {
                                    a: if shielded {
                                        0
                                    } else {
                                        1
                                    },
                                    b: (-cover_at(t, h)) as i128,
                                    c: b.routes@[i].cost as i128,
                                    d: (-hex_rank(h)) as i128,
                                },
                            ),
                        ),
                    }
                },
            }
        }
}

/// The screen of battalion `who` against a threat: a battalion that holds a hex
/// of the ring behind a river already stays put; else it goes to the best
/// screen, but never out from behind a river to a screen before it; and where
/// there is no screen it holds behind a river and else approaches up to the
/// standoff.
pub open spec fn screen(
    t: TurnView,
    b: &Book,
    who: int,
    reserved: Seq<HexCoord>,
    threat: Option<HexCoord>,
    standoff: u8,
) -> Result<Option<Act>, Query> {
    let u = t.own[who];
    let hold = Act::Hold { unit_id: u.id };
    match threat {
        None => Ok(None),
        Some(threat) => match truth(b, Query::Shielded { from: u.position, threat }) {
            Err(q) => Err(q),
            Ok(shielded_now) => if shielded_now && hex_distance(threat, u.position) == standoff {
                Ok(Some(hold))
            } else {
                let ring = disc(threat, standoff as nat);
                match gathered(ring, screen_key(t, b, who, reserved, threat, standoff as int)) {
                    Err(q) => Err(q),
                    Ok(keys) => match least(keys) {
                        None => if shielded_now {
                            Ok(Some(hold))
                        } else {
                            approach(t, b, who, reserved, Some(threat), Some(standoff as i64))
                        },
                        Some(i) => if shielded_now && keys[i]->0.a != 0 {
                            Ok(Some(hold))
                        } else {
                            match route_at(b, who, ring[i]) {
                                Ok(Some(k)) => Ok(
                                    Some(Act::MoveUnit { unit_id: u.id, path: b.routes@[k].path@ }),
                                ),
                                _ => Ok(None),
                            }
                        },
                    },
                }
            },
        },
    }
}

fn has_ford(t: &Turn, p: &Vec<HexCoord>) -> (r: bool)
    ensures
        r == fords(t@, p@),
{
    let mut i: usize = 0;
    while i < p.len()
        invariant
            i <= p@.len(),
            forall|j: int| 0 <= j < i ==> !t.grid.river_at(#[trigger] p@[j]),
        decreases p@.len() - i,
    {
        if t.grid.is_river(p[i]) {
            assert(t.grid.river_at(p@[i as int]));
            return true;
        }
        i += 1;
    }
    false
}

/// The rank of a hex as a screen.
fn rank_screen(
    t: &Turn,
    b: &Book,
    who: usize,
    reserved: &Vec<HexCoord>,
    threat: HexCoord,
    standoff: u8,
    h: HexCoord,
) -> (r: Result<Option<Key>, Query>)
    requires
        who < t.own@.len(),
    ensures
        r == screen_key(t@, b, who as int, reserved@, threat, standoff as int)(h),
{
    if threat.distance(h) != standoff as i64 || is_held_by_other(&t.all, t.own[who].id, h)
        || is_reserved(reserved, h) || !t.grid.is_open(h) || t.grid.is_river(h) {
        return Ok(None);
    }
    match b.route(who, h) {
        Err(q) => Err(q),
        Ok(None) => Ok(None),
        Ok(Some(i)) => {
            if has_ford(t, &b.routes[i].path) {
                return Ok(None);
            }
            match b.truth(Query::Shielded { from: h, threat }) {
                Err(q) => Err(q),
                Ok(shielded) => {
                    let rank: i128 = h.q as i128 * 0x1_0000_0000 + h.r as i128;
                    Ok(
                        Some(
                            Key {
                                a: if shielded {
                                    0
                                } else {
                                    1
                                },
                                b: -(ground_cover(t, h) as i128),
                                c: b.routes[i].cost as i128,
                                d: -rank,
                            },
                        ),
                    )
                },
            }
        },
    }
}

/// The ranks of hexes as screens.
fn rank_screens(
    t: &Turn,
    b: &Book,
    who: usize,
    reserved: &Vec<HexCoord>,
    threat: HexCoord,
    standoff: u8,
    ring: &Vec<HexCoord>,
) -> (r: Result<Vec<Option<Key>>, Query>)
    requires
        who < t.own@.len(),
    ensures
        match r {
            Ok(keys) => gathered(
                ring@,
                screen_key(t@, b, who as int, reserved@, threat, standoff as int),
            ) == Ok::<Seq<Option<Key>>, Query>(keys@),
            Err(q) => gathered(
                ring@,
                screen_key(t@, b, who as int, reserved@, threat, standoff as int),
            ) == Err::<Seq<Option<Key>>, Query>(q),
        },
{
    let ghost f = screen_key(t@, b, who as int, reserved@, threat, standoff as int);
    let mut keys: Vec<Option<Key>> = Vec::new();
    let mut i: usize = 0;
    assert(ring@.take(0) =~= Seq::<HexCoord>::empty());
    while i < ring.len()
        invariant
            i <= ring@.len(),
            who < t.own@.len(),
            f == screen_key(t@, b, who as int, reserved@, threat, standoff as int),
            gathered(ring@.take(i as int), f) == Ok::<Seq<Option<Key>>, Query>(keys@),
        decreases ring@.len() - i,
    {
        let h = ring[i];
        assert(ring@.take(i + 1).drop_last() =~= ring@.take(i as int));
        assert(ring@.take(i + 1).last() == h);
        match rank_screen(t, b, who, reserved, threat, standoff, h) {
            Err(q) => {
                proof {
                    lemma_gathered_asks(ring@, f, i + 1, q);
                }
                return Err(q);
            },
            Ok(k) => {
                keys.push(k);
            },
        }
        i += 1;
    }
    assert(ring@.take(ring@.len() as int) =~= ring@);
    Ok(keys)
}

/// The screen of battalion `who` against a threat.
pub fn screen_threat(
    t: &Turn,
    b: &Book,
    who: usize,
    reserved: &Vec<HexCoord>,
    threat: Option<HexCoord>,
    standoff: u8,
) -> (r: Result<Option<AiAction>, Query>)
    requires
        who < t.own@.len(),
    ensures
        proposed(r) == screen(t@, b, who as int, reserved@, threat, standoff),
{
    let u = t.own[who];
    let threat = match threat {
        None => {
            return Ok(None);
        },
        Some(h) => h,
    };
    let shielded_now = match b.truth(Query::Shielded { from: u.position, threat }) {
        Err(q) => {
            return Err(q);
        },
        Ok(s) => s,
    };
    if shielded_now && threat.distance(u.position) == standoff as i64 {
        return Ok(Some(AiAction::Hold { unit_id: u.id }));
    }
    let ring: Vec<HexCoord> = threat.hexes_in_range(standoff);
    let keys: Vec<Option<Key>> = match rank_screens(t, b, who, reserved, threat, standoff, &ring) {
        Err(q) => {
            return Err(q);
        },
        Ok(keys) => keys,
    };
    proof {
        lemma_gathered_len(ring@, screen_key(t@, b, who as int, reserved@, threat, standoff as int));
    }
    match find_least(&keys) {
        None => if shielded_now {
            Ok(Some(AiAction::Hold { unit_id: u.id }))
        } else {
            march(t, b, who, reserved, Some(threat), Some(standoff as i64))
        },
        Some(k) => {
            let behind = match keys[k] {
                Some(key) => key.a == 0,
                None => false,
            };
            if shielded_now && !behind {
                return Ok(Some(AiAction::Hold { unit_id: u.id }));
            }
            match b.route(who, ring[k]) {
                Ok(Some(n)) => Ok(
                    Some(AiAction::MoveUnit { unit_id: u.id, path: copy_path(&b.routes[n].path) }),
                ),
                _ => Ok(None),
            }
        },
    }
}

} // verus!
