//! The third layer of a turn's plan: what a battalion does in its role.
use vstd::prelude::*;
use crate::action::{AiAction, Act};
use crate::assault::{assault, try_assault};
use crate::barrage::{choose_fire_target, fire_target};
use crate::goal::{
    blind_goal, distance_to_zone, find_blind_goal, find_order_goal, in_envelope,
    intel_goal_in_range, order_goal, order_goal_in_range, order_point, progress_at, zone_distance,
    zone_flag_progress,
};
use crate::hex::{hex_distance, HexCoord};
use crate::march::{
    advance_one_hex, advance_step, approach, back_step, cover_step, fall_back_one_hex, march, order_step,
    screen, screen_threat, shift_to_cover, step_order, StepRule, ARTILLERY_MIN_STANDOFF,
};
use crate::pick::{find_least, indices, least, rank, ranked, those_where, Key};
use crate::role::UnitRole;
use crate::tactic::CombatTactic;
use crate::turn::{
    any_fighting, contact_foe, decided, else_hold, enemy_distance, fire_distance, gathered,
    has_fighting, held, in_contact_at, is_held, isolated_enemy_hex, lemma_gathered_asks,
    min_enemy_dist, min_enemy_dist_incl_retreating, most_isolated_enemy, nearest_enemy,
    nearest_enemy_hex, number, or_hold, place, proposed, Book, FlagZone, Query, Turn, TurnView,
};
use crate::unit::{BattalionUnit, Side};

verus! {

/// How near a cleared flag zone has to be for a line battalion to walk in.
pub const FLAG_OCCUPY_REACH: i64 = 6;

/// The first proposal, or else the second.
pub open spec fn or_then(first: Result<Option<Act>, Query>, second: Result<Act, Query>) -> Result<Act, Query> {
    match first {
        Err(q) => Err(q),
        Ok(Some(a)) => Ok(a),
        Ok(None) => second,
    }
}

/// To hold.
pub open spec fn hold(u: BattalionUnit) -> Result<Act, Query> {
    Ok(Act::Hold { unit_id: u.id })
}

/// Where a battalion marches: on the division's order, else on the nearest
/// enemy, else blind.
pub open spec fn march_goal(t: TurnView, reserved: Seq<HexCoord>, u: BattalionUnit) -> Option<HexCoord> {
    match order_goal(t, reserved, u) {
        Some(h) => Some(h),
        None => match nearest_enemy_hex(t.enemy, u.position) {
            Some(h) => Some(h),
            None => blind_goal(t, u.position),
        },
    }
}

fn find_march_goal(t: &Turn, reserved: &Vec<HexCoord>, u: &BattalionUnit) -> (g: Option<HexCoord>)
    ensures
        g == march_goal(t@, reserved@, *u),
{
    match find_order_goal(t, reserved, u) {
        Some(h) => Some(h),
        None => match nearest_enemy(u.position, &t.enemy) {
            Some(h) => Some(h),
            None => find_blind_goal(t, u.position),
        },
    }
}

// ---- damaged battalions ----

/// A damaged battalion steps out of the front line; one that is pinned in
/// contact retreats.
pub open spec fn reserve_duty(t: TurnView, b: &Book, who: int, reserved: Seq<HexCoord>) -> Result<Act, Query> {
    let u = t.own[who];
    let now = enemy_distance(t.enemy, u.position);
    or_then(
        step_order(t, b, who, reserved, StepRule::Withdraw { now: now as i64 }),
        if now <= 1 {
            Ok(Act::Retreat { unit_id: u.id })
        } else {
            hold(u)
        },
    )
}

fn plan_reserve(t: &Turn, b: &Book, who: usize, reserved: &Vec<HexCoord>) -> (r: Result<AiAction, Query>)
    requires
        who < t.own@.len(),
    ensures
        decided(r) == reserve_duty(t@, b, who as int, reserved@),
{
    let u = t.own[who];
    let now: i64 = min_enemy_dist(u.position, &t.enemy);
    match order_step(t, b, who, reserved, StepRule::Withdraw { now }) {
        Err(q) => Err(q),
        Ok(Some(a)) => Ok(a),
        Ok(None) => if now <= 1 {
            Ok(AiAction::Retreat { unit_id: u.id })
        } else {
            Ok(AiAction::Hold { unit_id: u.id })
        },
    }
}

// ---- guns ----

/// The hex that a battery shells without a target: the point of the division's
/// order or else the blind goal, if it reaches it.
pub open spec fn bombarded(t: TurnView, u: BattalionUnit) -> Option<HexCoord> {
    match in_envelope(u, order_point(t)) {
        Some(h) => Some(h),
        None => in_envelope(u, blind_goal(t, u.position)),
    }
}

/// A fire mission of a battalion.
pub open spec fn fire_at(u: BattalionUnit, h: HexCoord) -> Act {
    Act::FireSupport { attacker_id: u.id, target_hex: h }
}

/// The fire mission of battalion `who`, if it is loaded and has a target; guns
/// that lay directly do not shell blindly.
pub open spec fn mission(t: TurnView, b: &Book, who: int) -> Result<Option<Act>, Query> {
    let u = t.own[who];
    if u.fire_cooldown > 0 {
        Ok(None)
    } else {
        match fire_target(t, b, who) {
            Err(q) => Err(q),
            Ok(Some(h)) => Ok(Some(fire_at(u, h))),
            Ok(None) => match bombarded(t, u) {
                Some(h) if !u.kind.direct_gun => Ok(Some(fire_at(u, h))),
                _ => Ok(None),
            },
        }
    }
}

/// A limbered gun emplaces where the enemy is in its envelope, where it is the
/// defender's, and where the division's order is to hold; else it follows the
/// march.
pub open spec fn limbered_duty(t: TurnView, b: &Book, who: int, reserved: Seq<HexCoord>) -> Result<Act, Query> {
    let u = t.own[who];
    if fire_distance(t.enemy, u.position) <= u.attack_range || (t.side == Side::Defender
        && t.order is None) || (t.order is Some && t.tactic == CombatTactic::ElasticDefense) {
        Ok(Act::Emplace { unit_id: u.id })
    } else {
        or_hold(
            approach(t, b, who, reserved, march_goal(t, reserved, u), Some(ARTILLERY_MIN_STANDOFF)),
            u.id,
        )
    }
}

/// A mobile battery with the enemy out of its envelope shells blindly or creeps
/// into the envelope; one that reloads can only creep.
pub open spec fn creeping_duty(t: TurnView, b: &Book, who: int, reserved: Seq<HexCoord>) -> Result<Act, Query> {
    let u = t.own[who];
    match bombarded(t, u) {
        Some(h) if !u.kind.direct_gun && u.fire_cooldown <= 0 => Ok(fire_at(u, h)),
        _ => or_hold(
            approach(t, b, who, reserved, march_goal(t, reserved, u), Some(u.attack_range)),
            u.id,
        ),
    }
}

/// What a gun out of contact does. An emplaced gun of an attacker without
/// orders limbers when the enemy has left its envelope and nothing blind is in
/// it.
pub open spec fn gun_duty(t: TurnView, b: &Book, who: int, reserved: Seq<HexCoord>) -> Result<Act, Query> {
    let u = t.own[who];
    let out_of_envelope = fire_distance(t.enemy, u.position) > u.attack_range;
    if u.kind.towed && !u.is_emplaced {
        limbered_duty(t, b, who, reserved)
    } else if u.kind.towed && out_of_envelope && t.side == Side::Attacker && t.order is None
        && in_envelope(u, blind_goal(t, u.position)) is None {
        Ok(Act::Limber { unit_id: u.id })
    } else {
        or_then(
            mission(t, b, who),
            if !u.kind.towed && out_of_envelope {
                creeping_duty(t, b, who, reserved)
            } else {
                hold(u)
            },
        )
    }
}

/// What a gun does: in contact it gets off the front line first, after
/// limbering if it is emplaced.
pub open spec fn support_duty(t: TurnView, b: &Book, who: int, reserved: Seq<HexCoord>) -> Result<Act, Query> {
    let u = t.own[who];
    if enemy_distance(t.enemy, u.position) >= ARTILLERY_MIN_STANDOFF {
        gun_duty(t, b, who, reserved)
    } else if u.is_emplaced {
        Ok(Act::Limber { unit_id: u.id })
    } else {
        or_then(
            step_order(t, b, who, reserved, StepRule::Displace),
            gun_duty(t, b, who, reserved),
        )
    }
}

fn find_bombarded(t: &Turn, u: &BattalionUnit) -> (h: Option<HexCoord>)
    ensures
        h == bombarded(t@, *u),
{
    match order_goal_in_range(t, u) {
        Some(h) => Some(h),
        None => intel_goal_in_range(t, u),
    }
}

fn plan_mission(t: &Turn, b: &Book, who: usize) -> (r: Result<Option<AiAction>, Query>)
    requires
        who < t.own@.len(),
    ensures
        proposed(r) == mission(t@, b, who as int),
{
    let u = t.own[who];
    if u.fire_cooldown > 0 {
        return Ok(None);
    }
    match choose_fire_target(t, b, who) {
        Err(q) => Err(q),
        Ok(Some(h)) => Ok(Some(AiAction::FireSupport { attacker_id: u.id, target_hex: h })),
        Ok(None) => {
            if u.kind.direct_gun {
                return Ok(None);
            }
            match find_bombarded(t, &u) {
                Some(h) => Ok(Some(AiAction::FireSupport { attacker_id: u.id, target_hex: h })),
                None => Ok(None),
            }
        },
    }
}

fn plan_limbered(t: &Turn, b: &Book, who: usize, reserved: &Vec<HexCoord>) -> (r: Result<AiAction, Query>)
    requires
        who < t.own@.len(),
    ensures
        decided(r) == limbered_duty(t@, b, who as int, reserved@),
{
    let u = t.own[who];
    let holds = match t.tactic {
        CombatTactic::ElasticDefense => true,
        _ => false,
    };
    if min_enemy_dist_incl_retreating(u.position, &t.enemy) <= u.attack_range || (t.side == Side::Defender
        && t.order.is_none()) || (t.order.is_some() && holds) {
        return Ok(AiAction::Emplace { unit_id: u.id });
    }
    let goal = find_march_goal(t, reserved, &u);
    else_hold(march(t, b, who, reserved, goal, Some(ARTILLERY_MIN_STANDOFF)), u.id)
}

fn plan_creeping(t: &Turn, b: &Book, who: usize, reserved: &Vec<HexCoord>) -> (r: Result<AiAction, Query>)
    requires
        who < t.own@.len(),
    ensures
        decided(r) == creeping_duty(t@, b, who as int, reserved@),
{
    let u = t.own[who];
    if !u.kind.direct_gun && u.fire_cooldown <= 0 {
        if let Some(h) = find_bombarded(t, &u) {
            return Ok(AiAction::FireSupport { attacker_id: u.id, target_hex: h });
        }
    }
    let goal = find_march_goal(t, reserved, &u);
    else_hold(march(t, b, who, reserved, goal, Some(u.attack_range)), u.id)
}

fn plan_gun(t: &Turn, b: &Book, who: usize, reserved: &Vec<HexCoord>) -> (r: Result<AiAction, Query>)
    requires
        who < t.own@.len(),
    ensures
        decided(r) == gun_duty(t@, b, who as int, reserved@),
{
    let u = t.own[who];
    let out_of_envelope = min_enemy_dist_incl_retreating(u.position, &t.enemy) > u.attack_range;
    if u.kind.towed && !u.is_emplaced {
        return plan_limbered(t, b, who, reserved);
    }
    if u.kind.towed && out_of_envelope && t.side == Side::Attacker && t.order.is_none() {
        if intel_goal_in_range(t, &u).is_none() {
            return Ok(AiAction::Limber { unit_id: u.id });
        }
    }
    match plan_mission(t, b, who) {
        Err(q) => Err(q),
        Ok(Some(a)) => Ok(a),
        Ok(None) => if !u.kind.towed && out_of_envelope {
            plan_creeping(t, b, who, reserved)
        } else {
            Ok(AiAction::Hold { unit_id: u.id })
        },
    }
}

fn plan_support_fire(t: &Turn, b: &Book, who: usize, reserved: &Vec<HexCoord>) -> (r: Result<
    AiAction,
    Query,
>)
    requires
        who < t.own@.len(),
    ensures
        decided(r) == support_duty(t@, b, who as int, reserved@),
{
    let u = t.own[who];
    if min_enemy_dist(u.position, &t.enemy) >= ARTILLERY_MIN_STANDOFF {
        return plan_gun(t, b, who, reserved);
    }
    if u.is_emplaced {
        return Ok(AiAction::Limber { unit_id: u.id });
    }
    match order_step(t, b, who, reserved, StepRule::Displace) {
        Err(q) => Err(q),
        Ok(Some(a)) => Ok(a),
        Ok(None) => plan_gun(t, b, who, reserved),
    }
}

// ---- flankers, probes, support companies ----

/// Where a battalion goes round the enemy: battalions with even ids to the
/// left; blind where there is no enemy to go round.
pub open spec fn flank_goal(t: TurnView, b: &Book, u: BattalionUnit) -> Result<Option<HexCoord>, Query> {
    match place(b, Query::Waypoint { left: u.id % 2 == 0 }) {
        Err(q) => Err(q),
        Ok(Some(h)) => Ok(Some(h)),
        Ok(None) => Ok(blind_goal(t, u.position)),
    }
}

/// A battalion that strikes what it meets, holds a contact that it may not
/// strike, and else does the rest.
pub open spec fn strike_or_hold_contact(t: TurnView, b: &Book, who: int, rest: Result<Act, Query>) -> Result<
    Act,
    Query,
> {
    let u = t.own[who];
    or_then(
        assault(t, b, who),
        if in_contact_at(t.enemy, u.position) {
            hold(u)
        } else {
            rest
        },
    )
}

/// A probe makes for the flank.
pub open spec fn probe_duty(t: TurnView, b: &Book, who: int, reserved: Seq<HexCoord>) -> Result<Act, Query> {
    let u = t.own[who];
    strike_or_hold_contact(
        t,
        b,
        who,
        match flank_goal(t, b, u) {
            Err(q) => Err(q),
            Ok(goal) => or_hold(approach(t, b, who, reserved, goal, None), u.id),
        },
    )
}

/// A flanker makes for the flank until it is there.
pub open spec fn flank_duty(t: TurnView, b: &Book, who: int, reserved: Seq<HexCoord>) -> Result<Act, Query> {
    let u = t.own[who];
    strike_or_hold_contact(
        t,
        b,
        who,
        match flank_goal(t, b, u) {
            Err(q) => Err(q),
            Ok(Some(h)) if hex_distance(u.position, h) > 1 => or_hold(
                approach(t, b, who, reserved, Some(h), None),
                u.id,
            ),
            _ => hold(u),
        },
    )
}

/// The battalions that a support company may stay near, ranked by nearness,
/// then by id.
pub open spec fn anchor_keys(t: TurnView, u: BattalionUnit) -> Seq<Option<Key>> {
    Seq::new(
        t.own.len(),
        |i: int|
            {
                let o = t.own[i];
                if o.id != u.id && o.effective() && !o.kind.support_company {
                    Some(
                        Key {
                            a: hex_distance(u.position, o.position) as i128,
                            b: o.id as i128,
                            c: 0,
                            d: 0,
                        },
                    )
                } else {
                    None
                }
            },
    )
}

/// A support company stays near the nearest combat battalion.
pub open spec fn attached_duty(t: TurnView, b: &Book, who: int, reserved: Seq<HexCoord>) -> Result<Act, Query> {
    let u = t.own[who];
    strike_or_hold_contact(
        t,
        b,
        who,
        match least(anchor_keys(t, u)) {
            Some(i) if hex_distance(u.position, t.own[i].position) > 1 => or_hold(
                approach(t, b, who, reserved, Some(t.own[i].position), None),
                u.id,
            ),
            _ => hold(u),
        },
    )
}

fn find_flank_goal(t: &Turn, b: &Book, u: &BattalionUnit) -> (r: Result<Option<HexCoord>, Query>)
    ensures
        r == flank_goal(t@, b, *u),
{
    match b.place(Query::Waypoint { left: u.id % 2 == 0 }) {
        Err(q) => Err(q),
        Ok(Some(h)) => Ok(Some(h)),
        Ok(None) => Ok(find_blind_goal(t, u.position)),
    }
}

fn plan_probe(t: &Turn, b: &Book, who: usize, reserved: &Vec<HexCoord>) -> (r: Result<AiAction, Query>)
    requires
        who < t.own@.len(),
    ensures
        decided(r) == probe_duty(t@, b, who as int, reserved@),
{
    let u = t.own[who];
    match try_assault(t, b, who) {
        Err(q) => {
            return Err(q);
        },
        Ok(Some(a)) => {
            return Ok(a);
        },
        Ok(None) => {},
    }
    if contact_foe(&u, &t.enemy) {
        return Ok(AiAction::Hold { unit_id: u.id });
    }
    match find_flank_goal(t, b, &u) {
        Err(q) => Err(q),
        Ok(goal) => else_hold(march(t, b, who, reserved, goal, None), u.id),
    }
}

fn plan_flank(t: &Turn, b: &Book, who: usize, reserved: &Vec<HexCoord>) -> (r: Result<AiAction, Query>)
    requires
        who < t.own@.len(),
    ensures
        decided(r) == flank_duty(t@, b, who as int, reserved@),
{
    let u = t.own[who];
    match try_assault(t, b, who) {
        Err(q) => {
            return Err(q);
        },
        Ok(Some(a)) => {
            return Ok(a);
        },
        Ok(None) => {},
    }
    if contact_foe(&u, &t.enemy) {
        return Ok(AiAction::Hold { unit_id: u.id });
    }
    match find_flank_goal(t, b, &u) {
        Err(q) => Err(q),
        Ok(Some(h)) => if u.position.distance(h) > 1 {
            else_hold(march(t, b, who, reserved, Some(h), None), u.id)
        } else {
            Ok(AiAction::Hold { unit_id: u.id })
        },
        Ok(None) => Ok(AiAction::Hold { unit_id: u.id }),
    }
}

fn find_anchor(t: &Turn, u: &BattalionUnit) -> (i: Option<usize>)
    ensures
        match i {
            Some(k) => least(anchor_keys(t@, *u)) == Some(k as int) && k < t.own@.len(),
            None => least(anchor_keys(t@, *u)) is None,
        },
{
    let mut keys: Vec<Option<Key>> = Vec::new();
    let mut i: usize = 0;
    while i < t.own.len()
        invariant
            i <= t.own@.len(),
            keys@ =~= anchor_keys(t@, *u).take(i as int),
        decreases t.own@.len() - i,
    {
        let o = t.own[i];
        if o.id != u.id && o.is_combat_effective() && !o.kind.support_company {
            let d: i64 = u.position.distance(o.position);
            keys.push(Some(Key { a: d as i128, b: o.id as i128, c: 0, d: 0 }));
        } else {
            keys.push(None);
        }
        i += 1;
    }
    assert(keys@ =~= anchor_keys(t@, *u));
    find_least(&keys)
}

fn plan_attached(t: &Turn, b: &Book, who: usize, reserved: &Vec<HexCoord>) -> (r: Result<AiAction, Query>)
    requires
        who < t.own@.len(),
    ensures
        decided(r) == attached_duty(t@, b, who as int, reserved@),
{
    let u = t.own[who];
    match try_assault(t, b, who) {
        Err(q) => {
            return Err(q);
        },
        Ok(Some(a)) => {
            return Ok(a);
        },
        Ok(None) => {},
    }
    if contact_foe(&u, &t.enemy) {
        return Ok(AiAction::Hold { unit_id: u.id });
    }
    match find_anchor(t, &u) {
        Some(i) => {
            let h = t.own[i].position;
            if u.position.distance(h) > 1 {
                else_hold(march(t, b, who, reserved, Some(h), None), u.id)
            } else {
                Ok(AiAction::Hold { unit_id: u.id })
            }
        },
        None => Ok(AiAction::Hold { unit_id: u.id }),
    }
}

// ---- headquarters ----

/// The rank of a battalion of the headquarters' division by how far it is from
/// the division's centre, then by its hex.
pub open spec fn centre_key(t: TurnView, b: &Book, who: int) -> spec_fn(usize) -> Result<Option<Key>, Query> {
    |i: usize|
        {
            let o = t.own[i as int];
            if o.kind.hq || o.division != t.own[who].division || !o.effective() {
                Ok(None)
            } else {
                match number(b, Query::OffCentre { hq: who as usize, member: i }) {
                    Err(q) => Err(q),
                    Ok(n) => Ok(
                        Some(
                            Key {
                                a: n as i128,
                                b: o.position.q as i128,
                                c: o.position.r as i128,
                                d: 0,
                            },
                        ),
                    ),
                }
            }
        }
}

/// Where the battalion nearest to the centre of the headquarters' division
/// stands.
pub open spec fn division_anchor(t: TurnView, b: &Book, who: int) -> Result<Option<HexCoord>, Query> {
    match gathered(indices(t.own.len()), centre_key(t, b, who)) {
        Err(q) => Err(q),
        Ok(keys) => match least(keys) {
            Some(i) => Ok(Some(t.own[i].position)),
            None => Ok(None),
        },
    }
}

/// The hexes round an anchor: its neighbours, then those two steps away.
pub open spec fn posts_round(t: TurnView, anchor: HexCoord) -> Seq<HexCoord> {
    t.grid.around(anchor) + shifted_upto(t.second_ring, anchor, t.second_ring.len())
}

/// The hexes at the first `n` offsets from an anchor.
pub open spec fn shifted_upto(offsets: Seq<HexCoord>, anchor: HexCoord, n: nat) -> Seq<HexCoord>
    decreases n,
{
    if n == 0 {
        Seq::empty()
    } else {
        let rest = shifted_upto(offsets, anchor, (n - 1) as nat);
        let q = anchor.q + offsets[n - 1].q;
        let r = anchor.r + offsets[n - 1].r;
        if i32::MIN <= q <= i32::MAX && i32::MIN <= r <= i32::MAX {
            rest.push(HexCoord { q: q as i32, r: r as i32 })
        } else {
            rest
        }
    }
}

/// The posts that a headquarters may take: on the leash, on the map and free.
pub open spec fn free_post(t: TurnView, anchor: HexCoord) -> spec_fn(HexCoord) -> bool {
    |h: HexCoord|
        hex_distance(anchor, h) < t.params.hq_aura_radius && t.grid.on_map(h) && !held(t.all, h)
}

/// The posts that a headquarters may take, ranked by nearness to the anchor,
/// then to where it stands.
pub open spec fn ranked_posts(t: TurnView, u: BattalionUnit, anchor: HexCoord) -> Seq<HexCoord> {
    let posts = those_where(posts_round(t, anchor), free_post(t, anchor));
    ranked(post_keys(posts, u, anchor)).map_values(|i: usize| posts[i as int])
}

pub open spec fn post_keys(posts: Seq<HexCoord>, u: BattalionUnit, anchor: HexCoord) -> Seq<Key> {
    posts.map_values(
        |h: HexCoord|
            Key {
                a: hex_distance(anchor, h) as i128,
                b: hex_distance(u.position, h) as i128,
                c: 0,
                d: 0,
            },
    )
}

/// The march to the first of the posts from place `k` on that can be reached.
pub open spec fn to_a_post(t: TurnView, b: &Book, who: int, reserved: Seq<HexCoord>, posts: Seq<HexCoord>, k: nat) -> Result<
    Option<Act>,
    Query,
>
    decreases posts.len() - k,
{
    if k >= posts.len() {
        Ok(None)
    } else {
        match approach(t, b, who, reserved, Some(posts[k as int]), Some(2)) {
            Ok(None) => to_a_post(t, b, who, reserved, posts, k + 1),
            found => found,
        }
    }
}

/// The headquarters re-affirms the destination that it already marches to: it
/// is on the leash and free.
pub open spec fn keeps_post(t: TurnView, u: BattalionUnit, anchor: HexCoord) -> bool {
    u.move_to matches Some(dest) && hex_distance(anchor, dest) <= t.params.hq_aura_radius && !held(
        t.all,
        dest,
    )
}

/// A headquarters that has lost its division follows it to a free post by the
/// anchor, or else to the anchor itself.
pub open spec fn follow_division(t: TurnView, b: &Book, who: int, reserved: Seq<HexCoord>, anchor: HexCoord) -> Result<
    Act,
    Query,
> {
    let u = t.own[who];
    let kept = if keeps_post(t, u, anchor) {
        approach(t, b, who, reserved, u.move_to, Some(2))
    } else {
        Ok(None)
    };
    or_then(
        kept,
        or_then(
            to_a_post(t, b, who, reserved, ranked_posts(t, u, anchor), 0),
            or_hold(approach(t, b, who, reserved, Some(anchor), Some(2)), u.id),
        ),
    )
}

/// A headquarters never fights: in contact it steps away, on the leash it
/// holds, else it follows its division.
pub open spec fn hq_duty(t: TurnView, b: &Book, who: int, reserved: Seq<HexCoord>) -> Result<Act, Query> {
    let u = t.own[who];
    match division_anchor(t, b, who) {
        Err(q) => Err(q),
        Ok(None) => hold(u),
        Ok(Some(anchor)) => {
            let now = enemy_distance(t.enemy, u.position);
            if now <= 1 {
                or_then(
                    step_order(
                        t,
                        b,
                        who,
                        reserved,
                        StepRule::Shadow {
                            now: now as i64,
                            anchor,
                            leash: t.params.hq_aura_radius,
                        },
                    ),
                    hold(u),
                )
            } else if hex_distance(u.position, anchor) < t.params.hq_aura_radius {
                hold(u)
            } else {
                follow_division(t, b, who, reserved, anchor)
            }
        },
    }
}

/// The keys that were gathered, as a value.
spec fn found_keys(r: Result<Vec<Option<Key>>, Query>) -> Result<Seq<Option<Key>>, Query> {
    match r {
        Ok(v) => Ok(v@),
        Err(q) => Err(q),
    }
}

fn centre_keys(t: &Turn, b: &Book, who: usize) -> (r: Result<Vec<Option<Key>>, Query>)
    requires
        who < t.own@.len(),
    ensures
        found_keys(r) == gathered(indices(t.own@.len()), centre_key(t@, b, who as int)),
        r matches Ok(keys) ==> keys@.len() == t.own@.len(),
{
    let ghost all = indices(t.own@.len());
    let ghost f = centre_key(t@, b, who as int);
    let mut keys: Vec<Option<Key>> = Vec::new();
    let mut i: usize = 0;
    assert(all.take(0) =~= Seq::<usize>::empty());
    while i < t.own.len()
        invariant
            i <= t.own@.len(),
            who < t.own@.len(),
            all == indices(t.own@.len()),
            f == centre_key(t@, b, who as int),
            keys@.len() == i,
            gathered(all.take(i as int), f) == Ok::<Seq<Option<Key>>, Query>(keys@),
        decreases t.own@.len() - i,
    {
        proof {
            assert(all.take(i + 1).drop_last() =~= all.take(i as int));
            assert(all.take(i + 1).last() == i);
        }
        let o = t.own[i];
        if o.kind.hq || o.division != t.own[who].division || !o.is_combat_effective() {
            keys.push(None);
        } else {
            match b.number(Query::OffCentre { hq: who, member: i }) {
                Err(q) => {
                    proof {
                        lemma_gathered_asks(all, f, i + 1, q);
                    }
                    return Err(q);
                },
                Ok(n) => {
                    keys.push(
                        Some(
                            Key {
                                a: n as i128,
                                b: o.position.q as i128,
                                c: o.position.r as i128,
                                d: 0,
                            },
                        ),
                    );
                },
            }
        }
        i += 1;
    }
    assert(all.take(t.own@.len() as int) =~= all);
    Ok(keys)
}

fn find_division_anchor(t: &Turn, b: &Book, who: usize) -> (r: Result<Option<HexCoord>, Query>)
    requires
        who < t.own@.len(),
    ensures
        r == division_anchor(t@, b, who as int),
{
    match centre_keys(t, b, who) {
        Err(q) => Err(q),
        Ok(keys) => match find_least(&keys) {
            Some(k) => Ok(Some(t.own[k].position)),
            None => Ok(None),
        },
    }
}

fn find_posts(t: &Turn, anchor: HexCoord) -> (posts: Vec<HexCoord>)
    ensures
        posts@ == those_where(posts_round(t@, anchor), free_post(t@, anchor)),
{
    let mut round: Vec<HexCoord> = t.grid.neighbors(anchor);
    let ghost near = round@;
    let mut n: usize = 0;
    while n < t.second_ring.len()
        invariant
            n <= t.second_ring@.len(),
            round@ =~= near + shifted_upto(t.second_ring@, anchor, n as nat),
        decreases t.second_ring@.len() - n,
    {
        let q: i64 = anchor.q as i64 + t.second_ring[n].q as i64;
        let r: i64 = anchor.r as i64 + t.second_ring[n].r as i64;
        if q >= i32::MIN as i64 && q <= i32::MAX as i64 && r >= i32::MIN as i64 && r <= i32::MAX as i64 {
            round.push(HexCoord { q: q as i32, r: r as i32 });
        }
        n += 1;
    }
    assert(round@ =~= posts_round(t@, anchor));
    let ghost ok = free_post(t@, anchor);
    let mut posts: Vec<HexCoord> = Vec::new();
    let mut i: usize = 0;
    assert(round@.take(0) =~= Seq::<HexCoord>::empty());
    while i < round.len()
        invariant
            i <= round@.len(),
            ok == free_post(t@, anchor),
            posts@ == those_where(round@.take(i as int), ok),
        decreases round@.len() - i,
    {
        assert(round@.take(i + 1).drop_last() =~= round@.take(i as int));
        let h = round[i];
        if anchor.distance(h) < t.params.hq_aura_radius as i64 && t.grid.cell(h).is_some() && !is_held(
            &t.all,
            h,
        ) {
            posts.push(h);
        }
        i += 1;
    }
    assert(round@.take(round@.len() as int) =~= round@);
    posts
}

fn rank_posts(t: &Turn, u: &BattalionUnit, anchor: HexCoord) -> (out: Vec<HexCoord>)
    ensures
        out@ == ranked_posts(t@, *u, anchor),
{
    let posts: Vec<HexCoord> = find_posts(t, anchor);
    let mut keys: Vec<Key> = Vec::new();
    let mut i: usize = 0;
    while i < posts.len()
        invariant
            i <= posts@.len(),
            keys@ =~= post_keys(posts@, *u, anchor).take(i as int),
        decreases posts@.len() - i,
    {
        let h = posts[i];
        let d: i64 = anchor.distance(h);
        let e: i64 = u.position.distance(h);
        keys.push(Key { a: d as i128, b: e as i128, c: 0, d: 0 });
        i += 1;
    }
    assert(keys@ =~= post_keys(posts@, *u, anchor));
    let order: Vec<usize> = rank(&keys);
    let mut out: Vec<HexCoord> = Vec::new();
    let ghost pick = |i: usize| posts@[i as int];
    let mut k: usize = 0;
    while k < order.len()
        invariant
            k <= order@.len(),
            order@.len() == posts@.len(),
            pick == (|i: usize| posts@[i as int]),
            forall|k: int| 0 <= k < order@.len() ==> (#[trigger] order@[k]) < posts@.len(),
            out@ =~= order@.map_values(pick).take(k as int),
        decreases order@.len() - k,
    {
        out.push(posts[order[k]]);
        k += 1;
    }
    assert(out@ =~= order@.map_values(pick));
    out
}

fn march_to_a_post(
    t: &Turn,
    b: &Book,
    who: usize,
    reserved: &Vec<HexCoord>,
    posts: &Vec<HexCoord>,
    from: usize,
) -> (r: Result<Option<AiAction>, Query>)
    requires
        who < t.own@.len(),
        from <= posts@.len(),
    ensures
        proposed(r) == to_a_post(t@, b, who as int, reserved@, posts@, from as nat),
    decreases posts@.len() - from,
{
    if from >= posts.len() {
        return Ok(None);
    }
    match march(t, b, who, reserved, Some(posts[from]), Some(2)) {
        Err(q) => Err(q),
        Ok(Some(a)) => Ok(Some(a)),
        Ok(None) => march_to_a_post(t, b, who, reserved, posts, from + 1),
    }
}

fn plan_follow(t: &Turn, b: &Book, who: usize, reserved: &Vec<HexCoord>, anchor: HexCoord) -> (r: Result<
    AiAction,
    Query,
>)
    requires
        who < t.own@.len(),
    ensures
        decided(r) == follow_division(t@, b, who as int, reserved@, anchor),
{
    let u = t.own[who];
    if let Some(dest) = u.move_to {
        if anchor.distance(dest) <= t.params.hq_aura_radius as i64 && !is_held(&t.all, dest) {
            match march(t, b, who, reserved, Some(dest), Some(2)) {
                Err(q) => {
                    return Err(q);
                },
                Ok(Some(a)) => {
                    return Ok(a);
                },
                Ok(None) => {},
            }
        }
    }
    let posts: Vec<HexCoord> = rank_posts(t, &u, anchor);
    match march_to_a_post(t, b, who, reserved, &posts, 0) {
        Err(q) => Err(q),
        Ok(Some(a)) => Ok(a),
        Ok(None) => else_hold(march(t, b, who, reserved, Some(anchor), Some(2)), u.id),
    }
}

fn plan_hq(t: &Turn, b: &Book, who: usize, reserved: &Vec<HexCoord>) -> (r: Result<AiAction, Query>)
    requires
        who < t.own@.len(),
    ensures
        decided(r) == hq_duty(t@, b, who as int, reserved@),
{
    let u = t.own[who];
    let anchor = match find_division_anchor(t, b, who) {
        Err(q) => {
            return Err(q);
        },
        Ok(None) => {
            return Ok(AiAction::Hold { unit_id: u.id });
        },
        Ok(Some(h)) => h,
    };
    let now: i64 = min_enemy_dist(u.position, &t.enemy);
    if now <= 1 {
        let rule = StepRule::Shadow { now, anchor, leash: t.params.hq_aura_radius };
        return else_hold(order_step(t, b, who, reserved, rule), u.id);
    }
    if u.position.distance(anchor) < t.params.hq_aura_radius as i64 {
        return Ok(AiAction::Hold { unit_id: u.id });
    }
    plan_follow(t, b, who, reserved, anchor)
}

// ---- assaulting battalions ----

/// Raiders never end a turn in contact: they break off, or close in on isolated
/// prey without touching it.
pub open spec fn raid_duty(t: TurnView, b: &Book, who: int, reserved: Seq<HexCoord>) -> Result<Act, Query> {
    let u = t.own[who];
    if enemy_distance(t.enemy, u.position) <= 1 {
        or_then(
            step_order(t, b, who, reserved, StepRule::Evade),
            Ok(Act::Retreat { unit_id: u.id }),
        )
    } else {
        let goal = match isolated_enemy_hex(t.enemy, u.position) {
            Some(h) => Some(h),
            None => blind_goal(t, u.position),
        };
        or_hold(approach(t, b, who, reserved, goal, Some(2)), u.id)
    }
}

/// An assaulting battalion that has nobody to strike: a charge goes one hex
/// forward, raiders raid, infiltrators make for the most weakly held hex and
/// all others march. Without an order none of the latter leaves a contact.
pub open spec fn advance_duty(t: TurnView, b: &Book, who: int, reserved: Seq<HexCoord>) -> Result<Act, Query> {
    let u = t.own[who];
    let stuck = t.order is None && in_contact_at(t.enemy, u.position);
    match t.tactic {
        CombatTactic::MassCharge => or_hold(advance_step(t, b, who, reserved), u.id),
        CombatTactic::GuerrillaTactics => raid_duty(t, b, who, reserved),
        CombatTactic::InfiltrationAssault => if stuck {
            hold(u)
        } else {
            or_hold(
                approach(t, b, who, reserved, isolated_enemy_hex(t.enemy, u.position), None),
                u.id,
            )
        },
        _ => if stuck {
            hold(u)
        } else {
            or_hold(approach(t, b, who, reserved, march_goal(t, reserved, u), None), u.id)
        },
    }
}

/// An assaulting battalion strikes or advances.
pub open spec fn assault_duty(t: TurnView, b: &Book, who: int, reserved: Seq<HexCoord>) -> Result<Act, Query> {
    or_then(assault(t, b, who), advance_duty(t, b, who, reserved))
}

fn plan_hit_and_run(t: &Turn, b: &Book, who: usize, reserved: &Vec<HexCoord>) -> (r: Result<AiAction, Query>)
    requires
        who < t.own@.len(),
    ensures
        decided(r) == raid_duty(t@, b, who as int, reserved@),
{
    let u = t.own[who];
    if min_enemy_dist(u.position, &t.enemy) <= 1 {
        return match order_step(t, b, who, reserved, StepRule::Evade) {
            Err(q) => Err(q),
            Ok(Some(a)) => Ok(a),
            Ok(None) => Ok(AiAction::Retreat { unit_id: u.id }),
        };
    }
    let goal = match most_isolated_enemy(u.position, &t.enemy) {
        Some(h) => Some(h),
        None => find_blind_goal(t, u.position),
    };
    else_hold(march(t, b, who, reserved, goal, Some(2)), u.id)
}

fn plan_advance(t: &Turn, b: &Book, who: usize, reserved: &Vec<HexCoord>) -> (r: Result<AiAction, Query>)
    requires
        who < t.own@.len(),
    ensures
        decided(r) == advance_duty(t@, b, who as int, reserved@),
{
    let u = t.own[who];
    match t.tactic {
        CombatTactic::MassCharge => else_hold(advance_one_hex(t, b, who, reserved), u.id),
        CombatTactic::GuerrillaTactics => plan_hit_and_run(t, b, who, reserved),
        CombatTactic::InfiltrationAssault => {
            if t.order.is_none() && contact_foe(&u, &t.enemy) {
                return Ok(AiAction::Hold { unit_id: u.id });
            }
            let goal = most_isolated_enemy(u.position, &t.enemy);
            else_hold(march(t, b, who, reserved, goal, None), u.id)
        },
        _ => {
            if t.order.is_none() && contact_foe(&u, &t.enemy) {
                return Ok(AiAction::Hold { unit_id: u.id });
            }
            let goal = find_march_goal(t, reserved, &u);
            else_hold(march(t, b, who, reserved, goal, None), u.id)
        },
    }
}

fn plan_assault_role(t: &Turn, b: &Book, who: usize, reserved: &Vec<HexCoord>) -> (r: Result<AiAction, Query>)
    requires
        who < t.own@.len(),
    ensures
        decided(r) == assault_duty(t@, b, who as int, reserved@),
{
    match try_assault(t, b, who) {
        Err(q) => Err(q),
        Ok(Some(a)) => Ok(a),
        Ok(None) => plan_advance(t, b, who, reserved),
    }
}

// ---- the line ----

/// The battalion stands in the zone of a flag of its own side that is captured
/// by a third or more; no order and no withdrawal moves it.
pub open spec fn guards_flag(t: TurnView, u: BattalionUnit) -> bool {
    &&& t.side == Side::Defender
    &&& t.order is None
    &&& t.tactic != CombatTactic::TacticalWithdrawal
    &&& progress_at(t, u.position) * 3 >= t.params.flag_progress_cap
}

/// The flag is open to be walked into: not yet captured, near, and without an
/// enemy that fights in its zone.
pub open spec fn flag_cleared(t: TurnView, u: BattalionUnit, f: FlagZone) -> bool {
    &&& f.progress < t.params.flag_progress_cap
    &&& zone_distance(f.zone@, u.position) <= FLAG_OCCUPY_REACH
    &&& forall|i: int| 0 <= i < f.zone@.len() ==> !held(t.enemy, (#[trigger] f.zone@[i]).hex)
}

/// A flag is open to be walked into.
pub open spec fn any_flag_cleared(t: TurnView, u: BattalionUnit) -> bool {
    t.side == Side::Attacker && exists|i: int|
        0 <= i < t.flags.len() && flag_cleared(t, u, #[trigger] t.flags[i])
}

/// A line battalion of an attack that has nobody to strike: it marches on the
/// order or blind when no enemy that fights is in sight, or when a flag nearby
/// is open; else it holds the line.
pub open spec fn shoulder_duty(t: TurnView, b: &Book, who: int, reserved: Seq<HexCoord>) -> Result<Act, Query> {
    let u = t.own[who];
    if (t.side == Side::Attacker || t.order is Some) && (any_flag_cleared(t, u) || !any_fighting(
        t.enemy,
    )) {
        let goal = match order_goal(t, reserved, u) {
            Some(h) => Some(h),
            None => blind_goal(t, u.position),
        };
        or_hold(approach(t, b, who, reserved, goal, None), u.id)
    } else {
        hold(u)
    }
}

/// An elastic defence: in contact it strikes or falls back; near the enemy it
/// screens; else it holds.
pub open spec fn elastic_duty(t: TurnView, b: &Book, who: int, reserved: Seq<HexCoord>) -> Result<Act, Query> {
    let u = t.own[who];
    let d = enemy_distance(t.enemy, u.position);
    if d <= 1 {
        or_then(assault(t, b, who), or_hold(back_step(t, b, who, reserved), u.id))
    } else if d <= 3 {
        or_hold(
            screen(t, b, who, reserved, nearest_enemy_hex(t.enemy, u.position), 2),
            u.id,
        )
    } else {
        hold(u)
    }
}

/// A counterattack: it strikes, closes up to the enemy, or takes cover.
pub open spec fn counter_duty(t: TurnView, b: &Book, who: int, reserved: Seq<HexCoord>) -> Result<Act, Query> {
    let u = t.own[who];
    let d = enemy_distance(t.enemy, u.position);
    let closes_up = if 1 < d <= 8 {
        screen(t, b, who, reserved, nearest_enemy_hex(t.enemy, u.position), 2)
    } else {
        Ok(None)
    };
    or_then(
        assault(t, b, who),
        or_then(closes_up, or_hold(cover_step(t, b, who, reserved), u.id)),
    )
}

/// A battalion of the line: what the card has it do.
pub open spec fn line_duty(t: TurnView, b: &Book, who: int, reserved: Seq<HexCoord>) -> Result<Act, Query> {
    let u = t.own[who];
    match t.tactic {
        CombatTactic::TacticalWithdrawal => or_hold(back_step(t, b, who, reserved), u.id),
        CombatTactic::ElasticDefense => elastic_duty(t, b, who, reserved),
        CombatTactic::Default => or_then(
            assault(t, b, who),
            or_hold(cover_step(t, b, who, reserved), u.id),
        ),
        CombatTactic::Counterattack => counter_duty(t, b, who, reserved),
        CombatTactic::Ambush => or_then(assault(t, b, who), hold(u)),
        CombatTactic::RiverDefense => or_then(assault(t, b, who), hold(u)),
        CombatTactic::UrbanDefense => if t.grid.urban_at(u.position) {
            or_then(assault(t, b, who), hold(u))
        } else {
            hold(u)
        },
        CombatTactic::Delay => if enemy_distance(t.enemy, u.position) <= 1 {
            or_hold(back_step(t, b, who, reserved), u.id)
        } else {
            hold(u)
        },
        _ => or_then(assault(t, b, who), shoulder_duty(t, b, who, reserved)),
    }
}

/// A battalion that holds: in the zone of a threatened flag it strikes or
/// stays; else it does what the card has it do.
pub open spec fn hold_duty(t: TurnView, b: &Book, who: int, reserved: Seq<HexCoord>) -> Result<Act, Query> {
    let u = t.own[who];
    if guards_flag(t, u) {
        or_then(assault(t, b, who), hold(u))
    } else {
        line_duty(t, b, who, reserved)
    }
}

/// A battalion strikes, or else holds.
fn strike_or_hold(t: &Turn, b: &Book, who: usize) -> (r: Result<AiAction, Query>)
    requires
        who < t.own@.len(),
    ensures
        decided(r) == or_then(assault(t@, b, who as int), hold(t.own@[who as int])),
{
    else_hold(try_assault(t, b, who), t.own[who].id)
}

fn is_flag_cleared(t: &Turn, u: &BattalionUnit, f: &FlagZone) -> (b: bool)
    ensures
        b == flag_cleared(t@, *u, *f),
{
    if f.progress >= t.params.flag_progress_cap || distance_to_zone(&f.zone, u.position)
        > FLAG_OCCUPY_REACH {
        return false;
    }
    let mut i: usize = 0;
    while i < f.zone.len()
        invariant
            i <= f.zone@.len(),
            forall|j: int| 0 <= j < i ==> !held(t.enemy@, (#[trigger] f.zone@[j]).hex),
        decreases f.zone@.len() - i,
    {
        if is_held(&t.enemy, f.zone[i].hex) {
            assert(held(t.enemy@, f.zone@[i as int].hex));
            return false;
        }
        i += 1;
    }
    true
}

fn has_flag_cleared(t: &Turn, u: &BattalionUnit) -> (b: bool)
    ensures
        b == any_flag_cleared(t@, *u),
{
    if t.side != Side::Attacker {
        return false;
    }
    let mut i: usize = 0;
    while i < t.flags.len()
        invariant
            i <= t.flags@.len(),
            t.side == Side::Attacker,
            forall|j: int| 0 <= j < i ==> !flag_cleared(t@, *u, #[trigger] t.flags@[j]),
        decreases t.flags@.len() - i,
    {
        if is_flag_cleared(t, u, &t.flags[i]) {
            assert(flag_cleared(t@, *u, t@.flags[i as int]));
            return true;
        }
        i += 1;
    }
    false
}

fn plan_shoulder(t: &Turn, b: &Book, who: usize, reserved: &Vec<HexCoord>) -> (r: Result<AiAction, Query>)
    requires
        who < t.own@.len(),
    ensures
        decided(r) == shoulder_duty(t@, b, who as int, reserved@),
{
    let u = t.own[who];
    if (t.side == Side::Attacker || t.order.is_some()) && (has_flag_cleared(t, &u) || !has_fighting(
        &t.enemy,
    )) {
        let goal = match find_order_goal(t, reserved, &u) {
            Some(h) => Some(h),
            None => find_blind_goal(t, u.position),
        };
        return else_hold(march(t, b, who, reserved, goal, None), u.id);
    }
    Ok(AiAction::Hold { unit_id: u.id })
}

fn plan_elastic(t: &Turn, b: &Book, who: usize, reserved: &Vec<HexCoord>) -> (r: Result<AiAction, Query>)
    requires
        who < t.own@.len(),
    ensures
        decided(r) == elastic_duty(t@, b, who as int, reserved@),
{
    let u = t.own[who];
    let d: i64 = min_enemy_dist(u.position, &t.enemy);
    if d <= 1 {
        return match try_assault(t, b, who) {
            Err(q) => Err(q),
            Ok(Some(a)) => Ok(a),
            Ok(None) => else_hold(fall_back_one_hex(t, b, who, reserved), u.id),
        };
    }
    if d <= 3 {
        let threat = nearest_enemy(u.position, &t.enemy);
        return else_hold(screen_threat(t, b, who, reserved, threat, 2), u.id);
    }
    Ok(AiAction::Hold { unit_id: u.id })
}

fn plan_counter(t: &Turn, b: &Book, who: usize, reserved: &Vec<HexCoord>) -> (r: Result<AiAction, Query>)
    requires
        who < t.own@.len(),
    ensures
        decided(r) == counter_duty(t@, b, who as int, reserved@),
{
    let u = t.own[who];
    match try_assault(t, b, who) {
        Err(q) => {
            return Err(q);
        },
        Ok(Some(a)) => {
            return Ok(a);
        },
        Ok(None) => {},
    }
    let d: i64 = min_enemy_dist(u.position, &t.enemy);
    if 1 < d && d <= 8 {
        let threat = nearest_enemy(u.position, &t.enemy);
        match screen_threat(t, b, who, reserved, threat, 2) {
            Err(q) => {
                return Err(q);
            },
            Ok(Some(a)) => {
                return Ok(a);
            },
            Ok(None) => {},
        }
    }
    else_hold(shift_to_cover(t, b, who, reserved), u.id)
}

fn plan_line(t: &Turn, b: &Book, who: usize, reserved: &Vec<HexCoord>) -> (r: Result<AiAction, Query>)
    requires
        who < t.own@.len(),
    ensures
        decided(r) == line_duty(t@, b, who as int, reserved@),
{
    let u = t.own[who];
    match t.tactic {
        CombatTactic::TacticalWithdrawal => else_hold(fall_back_one_hex(t, b, who, reserved), u.id),
        CombatTactic::ElasticDefense => plan_elastic(t, b, who, reserved),
        CombatTactic::Default => match try_assault(t, b, who) {
            Err(q) => Err(q),
            Ok(Some(a)) => Ok(a),
            Ok(None) => else_hold(shift_to_cover(t, b, who, reserved), u.id),
        },
        CombatTactic::Counterattack => plan_counter(t, b, who, reserved),
        CombatTactic::Ambush => strike_or_hold(t, b, who),
        CombatTactic::RiverDefense => strike_or_hold(t, b, who),
        CombatTactic::UrbanDefense => if t.grid.is_urban(u.position) {
            strike_or_hold(t, b, who)
        } else {
            Ok(AiAction::Hold { unit_id: u.id })
        },
        CombatTactic::Delay => if min_enemy_dist(u.position, &t.enemy) <= 1 {
            else_hold(fall_back_one_hex(t, b, who, reserved), u.id)
        } else {
            Ok(AiAction::Hold { unit_id: u.id })
        },
        _ => match try_assault(t, b, who) {
            Err(q) => Err(q),
            Ok(Some(a)) => Ok(a),
            Ok(None) => plan_shoulder(t, b, who, reserved),
        },
    }
}

fn plan_hold_role(t: &Turn, b: &Book, who: usize, reserved: &Vec<HexCoord>) -> (r: Result<AiAction, Query>)
    requires
        who < t.own@.len(),
    ensures
        decided(r) == hold_duty(t@, b, who as int, reserved@),
{
    let u = t.own[who];
    let withdraws = match t.tactic {
        CombatTactic::TacticalWithdrawal => true,
        _ => false,
    };
    if t.side == Side::Defender && t.order.is_none() && !withdraws && zone_flag_progress(t, u.position) as i64
        * 3 >= t.params.flag_progress_cap as i64 {
        return strike_or_hold(t, b, who);
    }
    plan_line(t, b, who, reserved)
}

/// What a battalion does in its role.
pub open spec fn duty(t: TurnView, b: &Book, who: int, reserved: Seq<HexCoord>, role: UnitRole) -> Result<
    Act,
    Query,
> {
    match role {
        UnitRole::Reserve => reserve_duty(t, b, who, reserved),
        UnitRole::SupportFire => support_duty(t, b, who, reserved),
        UnitRole::Probe => probe_duty(t, b, who, reserved),
        UnitRole::Attached => attached_duty(t, b, who, reserved),
        UnitRole::Flank => flank_duty(t, b, who, reserved),
        UnitRole::Rearguard => hold(t.own[who]),
        UnitRole::Headquarters => hq_duty(t, b, who, reserved),
        UnitRole::Assault => assault_duty(t, b, who, reserved),
        UnitRole::HoldPosition => hold_duty(t, b, who, reserved),
    }
}

/// What a battalion does in its role.
pub fn execute_unit(t: &Turn, b: &Book, who: usize, reserved: &Vec<HexCoord>, role: UnitRole) -> (r: Result<
    AiAction,
    Query,
>)
    requires
        who < t.own@.len(),
    ensures
        decided(r) == duty(t@, b, who as int, reserved@, role),
{
    match role {
        UnitRole::Reserve => plan_reserve(t, b, who, reserved),
        UnitRole::SupportFire => plan_support_fire(t, b, who, reserved),
        UnitRole::Probe => plan_probe(t, b, who, reserved),
        UnitRole::Attached => plan_attached(t, b, who, reserved),
        UnitRole::Flank => plan_flank(t, b, who, reserved),
        UnitRole::Rearguard => Ok(AiAction::Hold { unit_id: t.own[who].id }),
        UnitRole::Headquarters => plan_hq(t, b, who, reserved),
        UnitRole::Assault => plan_assault_role(t, b, who, reserved),
        UnitRole::HoldPosition => plan_hold_role(t, b, who, reserved),
    }
}

} // verus!
