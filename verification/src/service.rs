//! What holds of every battalion's duty.
use vstd::prelude::*;
use crate::action::Act;
use crate::ai::{division_turn, opposing, played, sensed, sensor_radius, side_turn, Outlook, TacticalAi};
use crate::assault::assault;
use crate::barrage::fire_target;
use crate::bearing::{known_route, manned};
use crate::duty::{
    anchor_keys, any_flag_cleared, centre_key, division_anchor, duty, flag_cleared, follow_division,
    free_post, gun_duty, march_goal, mission, post_keys, posts_round, ranked_posts, shifted_upto,
    to_a_post,
};
use crate::geometry::law_matches_keep_their_order;
use crate::goal::{blind_goal, order_goal, order_point, progress_at};
use crate::hex::{hex_distance, HexCoord};
use crate::march::{advance_step, approach, back_step, cover_step, screen, step_order, StepRule};
use crate::pick::{indices, law_least, law_ranking, law_those_where, least, ranked, those_where, Key};
use crate::posture::line_infantry;
use crate::role::{role_of, UnitRole};
use crate::tactic::CombatTactic;
use crate::turn::{
    any_fighting, enemy_distance, fire_distance, gathered, held, in_contact_at, isolated_enemy_hex, lemma_gathered_len,
    nearest_enemy_hex, number, place, Book, DivOrderTarget, FlagZone, Query, Spot, TurnView,
};
use crate::unit::{BattalionUnit, Side, UnitState};

verus! {

/// The decision to do it.
pub open spec fn does(r: Result<Act, Query>, a: Act) -> bool {
    r == Ok::<Act, Query>(a)
}

/// The proposal of it.
pub open spec fn offers(r: Result<Option<Act>, Query>, a: Option<Act>) -> bool {
    r == Ok::<Option<Act>, Query>(a)
}

/// To hold.
pub open spec fn holding(t: TurnView, who: int) -> Act {
    Act::Hold { unit_id: t.own[who].id }
}

/// The march that is proposed, or else to hold.
pub open spec fn march_or_hold(t: TurnView, who: int, r: Result<Option<Act>, Query>, a: Act) -> bool {
    offers(r, Some(a)) || (offers(r, None) && a == holding(t, who))
}

/// A fighting enemy stands next to the battalion.
pub open spec fn touched(t: TurnView, who: int) -> bool {
    exists|j: int|
        0 <= j < t.enemy.len() && hex_distance((#[trigger] t.enemy[j]).position, t.own[who].position) == 1 && t.enemy[j].state
            == UnitState::Active && t.enemy[j].fit
}

proof fn lemma_touched(t: TurnView, who: int)
    ensures
        in_contact_at(t.enemy, t.own[who].position) <==> touched(t, who),
{
    let h = t.own[who].position;
    if in_contact_at(t.enemy, h) {
        let j = choose|j: int|
            0 <= j < t.enemy.len() && (#[trigger] t.enemy[j]).effective() && hex_distance(h, t.enemy[j].position) == 1;
        assert(hex_distance(t.enemy[j].position, h) == 1);
    }
    if touched(t, who) {
        let j = choose|j: int|
            0 <= j < t.enemy.len() && hex_distance((#[trigger] t.enemy[j]).position, h) == 1 && t.enemy[j].state
                == UnitState::Active && t.enemy[j].fit;
        assert(t.enemy[j].effective());
        assert(hex_distance(h, t.enemy[j].position) == 1);
    }
}

/// A damaged battalion steps away from the enemy where it can; where it cannot, it
/// retreats if the enemy is next to it and else holds.
pub proof fn law_the_damaged_step_away(t: TurnView, b: &Book, who: int, reserved: Seq<HexCoord>)
    ensures
        ({
            let near = enemy_distance(t.enemy, t.own[who].position);
            let away = step_order(t, b, who, reserved, StepRule::Withdraw { now: near as i64 });
            let r = duty(t, b, who, reserved, UnitRole::Reserve);
            &&& forall|a: Act| #[trigger] offers(away, Some(a)) ==> does(r, a)
            &&& offers(away, None) && near <= 1 ==> does(r, Act::Retreat { unit_id: t.own[who].id })
            &&& offers(away, None) && near > 1 ==> does(r, holding(t, who))
        }),
{
}

/// A gun with the enemy next to it limbers first if it is emplaced, and else steps to
/// where the enemy is two hexes off, if it can; otherwise, and with the enemy farther
/// off, it does a gun's work.
pub proof fn law_guns_get_off_the_front_line(t: TurnView, b: &Book, who: int, reserved: Seq<HexCoord>)
    ensures
        ({
            let near = enemy_distance(t.enemy, t.own[who].position);
            let away = step_order(t, b, who, reserved, StepRule::Displace);
            let r = duty(t, b, who, reserved, UnitRole::SupportFire);
            &&& near < 2 && t.own[who].is_emplaced ==> does(r, Act::Limber { unit_id: t.own[who].id })
            &&& near < 2 && !t.own[who].is_emplaced ==> {
                &&& forall|a: Act| #[trigger] offers(away, Some(a)) ==> does(r, a)
                &&& offers(away, None) ==> r == gun_duty(t, b, who, reserved)
            }
            &&& near >= 2 ==> r == gun_duty(t, b, who, reserved)
        }),
{
}

/// A limbered gun emplaces with an enemy in its range, in a defence without orders and
/// in an elastic defence under orders; otherwise it follows the march, two hexes off
/// the enemy, or holds.
pub proof fn law_limbered_guns_emplace_or_follow(t: TurnView, b: &Book, who: int, reserved: Seq<HexCoord>)
    requires
        t.own[who].kind.towed && !t.own[who].is_emplaced,
    ensures
        ({
            let u = t.own[who];
            let r = gun_duty(t, b, who, reserved);
            let stays = fire_distance(t.enemy, u.position) <= u.attack_range || (t.order is None && t.side == Side::Defender)
                || (t.order is Some && t.tactic == CombatTactic::ElasticDefense);
            &&& stays ==> does(r, Act::Emplace { unit_id: u.id })
            &&& !stays ==> (r matches Ok(a) ==> march_or_hold(
                t,
                who,
                approach(t, b, who, reserved, march_goal(t, reserved, u), Some(2)),
                a,
            ))
        }),
{
}

/// An emplaced gun of an attacker without orders limbers when the enemy is out of its
/// range and the blind goal not in its envelope. Every other gun that may fire carries
/// out its mission where it has one; else a mobile one with the enemy out of its range
/// creeps up to that range, or holds where it cannot, and all others hold.
pub proof fn law_guns_fire_limber_or_creep(t: TurnView, b: &Book, who: int, reserved: Seq<HexCoord>)
    requires
        t.own[who].kind.towed ==> t.own[who].is_emplaced,
    ensures
        ({
            let u = t.own[who];
            let r = gun_duty(t, b, who, reserved);
            let far = fire_distance(t.enemy, u.position) > u.attack_range;
            let leaves = u.kind.towed && far && t.side == Side::Attacker && t.order is None && !(blind_goal(t, u.position)
                matches Some(h) && u.min_attack_range <= hex_distance(u.position, h) <= u.attack_range);
            &&& leaves ==> does(r, Act::Limber { unit_id: u.id })
            &&& !leaves ==> {
                &&& forall|a: Act| #[trigger] offers(mission(t, b, who), Some(a)) ==> does(r, a)
                &&& offers(mission(t, b, who), None) && !(far && !u.kind.towed) ==> does(r, holding(t, who))
                &&& offers(mission(t, b, who), None) && far && !u.kind.towed ==> (r matches Ok(a) ==> march_or_hold(
                    t,
                    who,
                    approach(t, b, who, reserved, march_goal(t, reserved, u), Some(u.attack_range)),
                    a,
                ))
            }
        }),
{
}

/// A gun that reloads has no mission. One that is loaded fires at its target; without
/// one it shells, unless it lays directly, the point of the order or else the blind
/// goal, whichever of the two is in its envelope first.
#[verifier::rlimit(40)]
pub proof fn law_missions_are_at_targets_or_blind(t: TurnView, b: &Book, who: int)
    ensures
        ({
            let u = t.own[who];
            let in_range = |h: HexCoord| u.min_attack_range <= hex_distance(u.position, h) <= u.attack_range;
            let fire = |h: HexCoord| Act::FireSupport { attacker_id: u.id, target_hex: h };
            let none = Ok::<Option<HexCoord>, Query>(None);
            &&& u.fire_cooldown > 0 ==> offers(mission(t, b, who), None)
            &&& u.fire_cooldown <= 0 ==> {
                &&& fire_target(t, b, who) matches Ok(Some(h)) ==> offers(mission(t, b, who), Some(fire(h)))
                &&& fire_target(t, b, who) == none && u.kind.direct_gun ==> offers(mission(t, b, who), None)
                &&& fire_target(t, b, who) == none && !u.kind.direct_gun ==> match (order_point(t), blind_goal(t, u.position)) {
                    (Some(h), g) => if in_range(h) {
                        offers(mission(t, b, who), Some(fire(h)))
                    } else {
                        match g {
                            Some(x) => if in_range(x) {
                                offers(mission(t, b, who), Some(fire(x)))
                            } else {
                                offers(mission(t, b, who), None)
                            },
                            None => offers(mission(t, b, who), None),
                        }
                    },
                    (None, Some(x)) => if in_range(x) {
                        offers(mission(t, b, who), Some(fire(x)))
                    } else {
                        offers(mission(t, b, who), None)
                    },
                    (None, None) => offers(mission(t, b, who), None),
                }
            }
        }),
{
}

/// A battalion marches on its order; without one on the nearest enemy that fights;
/// and without any in sight blind.
pub proof fn law_marches_go_by_order_enemy_and_guess(t: TurnView, reserved: Seq<HexCoord>, u: BattalionUnit)
    ensures
        t.order is Some ==> march_goal(t, reserved, u) == order_goal(t, reserved, u) && march_goal(t, reserved, u) is Some,
        t.order is None && nearest_enemy_hex(t.enemy, u.position) is Some ==> march_goal(t, reserved, u)
            == nearest_enemy_hex(t.enemy, u.position),
        t.order is None && nearest_enemy_hex(t.enemy, u.position) is None ==> march_goal(t, reserved, u) == blind_goal(
            t,
            u.position,
        ),
{
}

/// Reconnaissance, flankers and support companies assault whatever they may, and hold
/// a contact that they may not strike.
pub proof fn law_side_roles_strike_what_they_meet(t: TurnView, b: &Book, who: int, reserved: Seq<HexCoord>, role: UnitRole)
    requires
        role == UnitRole::Probe || role == UnitRole::Flank || role == UnitRole::Attached || role == UnitRole::Assault,
    ensures
        forall|a: Act| #[trigger] offers(assault(t, b, who), Some(a)) ==> does(duty(t, b, who, reserved, role), a),
        role != UnitRole::Assault && offers(assault(t, b, who), None) && touched(t, who) ==> does(
            duty(t, b, who, reserved, role),
            holding(t, who),
        ),
{
    lemma_touched(t, who);
}

/// Out of contact and with nobody to strike, reconnaissance makes for the waypoint
/// past the enemy's flank, left for even ids and right for odd ones, and flankers do
/// until they are next to it; without a waypoint they go blind.
pub proof fn law_flanks_are_gone_round(t: TurnView, b: &Book, who: int, reserved: Seq<HexCoord>)
    requires
        offers(assault(t, b, who), None),
        !touched(t, who),
    ensures
        ({
            let u = t.own[who];
            let left = u.id % 2 == 0;
            let goal = match place(b, Query::Waypoint { left }) {
                Ok(Some(h)) => Some(h),
                _ => blind_goal(t, u.position),
            };
            place(b, Query::Waypoint { left }) is Ok ==> {
                &&& duty(t, b, who, reserved, UnitRole::Probe) matches Ok(a) ==> march_or_hold(
                    t,
                    who,
                    approach(t, b, who, reserved, goal, None),
                    a,
                )
                &&& (goal matches Some(h) && hex_distance(u.position, h) > 1) ==> (duty(t, b, who, reserved, UnitRole::Flank)
                    matches Ok(a) ==> march_or_hold(t, who, approach(t, b, who, reserved, goal, None), a))
                &&& !(goal matches Some(h) && hex_distance(u.position, h) > 1) ==> does(
                    duty(t, b, who, reserved, UnitRole::Flank),
                    holding(t, who),
                )
            }
        }),
{
    lemma_touched(t, who);
}

/// Battalion `i` is one that a support company stays near: another that fights and is
/// no support company.
pub open spec fn keeps_company(t: TurnView, who: int, i: int) -> bool {
    let o = t.own[i];
    o.id != t.own[who].id && o.state == UnitState::Active && o.fit && !o.kind.support_company
}

/// A support company goes to the nearest battalion that it stays near, and holds next
/// to it or where there is none.
#[verifier::rlimit(40)]
pub proof fn law_support_companies_keep_near(t: TurnView, b: &Book, who: int, reserved: Seq<HexCoord>, j: int) -> (i: int)
    requires
        offers(assault(t, b, who), None),
        !touched(t, who),
    ensures
        ({
            let u = t.own[who];
            let r = duty(t, b, who, reserved, UnitRole::Attached);
            &&& (forall|k: int| 0 <= k < t.own.len() ==> !#[trigger] keeps_company(t, who, k)) ==> does(r, holding(t, who))
            &&& 0 <= j < t.own.len() && keeps_company(t, who, j) ==> {
                &&& 0 <= i < t.own.len() && keeps_company(t, who, i)
                &&& hex_distance(u.position, t.own[i].position) <= hex_distance(u.position, t.own[j].position)
                &&& hex_distance(u.position, t.own[i].position) <= 1 ==> does(r, holding(t, who))
                &&& hex_distance(u.position, t.own[i].position) > 1 ==> (r matches Ok(a) ==> march_or_hold(
                    t,
                    who,
                    approach(t, b, who, reserved, Some(t.own[i].position), None),
                    a,
                ))
            }
        }),
{
    lemma_touched(t, who);
    let keys = anchor_keys(t, t.own[who]);
    law_least(keys);
    if 0 <= j < t.own.len() && keeps_company(t, who, j) {
        assert(keys[j] is Some);
    }
    match least(keys) {
        Some(i) => {
            assert(keeps_company(t, who, i));
            i
        },
        None => 0,
    }
}

/// Battalion `i` belongs to the division of a headquarters and is not one itself.
pub open spec fn of_its_division(t: TurnView, who: int, i: int) -> bool {
    let o = t.own[i];
    !o.kind.hq && o.division == t.own[who].division && o.state == UnitState::Active && o.fit
}

/// A headquarters shadows the battalion of its division nearest to the middle of it,
/// and none where it has no battalion.
#[verifier::rlimit(40)]
#[verifier::spinoff_prover]
pub proof fn law_headquarters_shadow_the_middle(t: TurnView, b: &Book, who: int, j: int) -> (i: int)
    requires
        t.own.len() <= usize::MAX,
    ensures
        division_anchor(t, b, who) matches Ok(found) ==> {
            &&& found is None <==> forall|k: int| 0 <= k < t.own.len() ==> !#[trigger] of_its_division(t, who, k)
            &&& found matches Some(h) ==> {
                &&& 0 <= i < t.own.len() && of_its_division(t, who, i) && h == t.own[i].position
                &&& 0 <= j < t.own.len() && of_its_division(t, who, j) ==> (number(
                    b,
                    Query::OffCentre { hq: who as usize, member: i as usize },
                ) matches Ok(m) && (number(b, Query::OffCentre { hq: who as usize, member: j as usize }) matches Ok(n) && m
                    <= n))
            }
        },
{
    let all = indices(t.own.len());
    let f = centre_key(t, b, who);
    lemma_gathered_len(all, f);
    match gathered(all, f) {
        Ok(keys) => {
            law_least(keys);
            assert forall|k: int| 0 <= k < t.own.len() implies (keys[k] is Some) == #[trigger] of_its_division(t, who, k) by {
                assert(all[k] == k as usize);
                assert(f(all[k]) == Ok::<Option<Key>, Query>(keys[k]));
            }
            if 0 <= j < t.own.len() {
                assert(all[j] == j as usize);
                assert(f(all[j]) == Ok::<Option<Key>, Query>(keys[j]));
            }
            match least(keys) {
                Some(i) => {
                    assert(all[i] == i as usize);
                    assert(f(all[i]) == Ok::<Option<Key>, Query>(keys[i]));
                    assert(of_its_division(t, who, i));
                    i
                },
                None => {
                    assert forall|k: int| 0 <= k < t.own.len() implies !#[trigger] of_its_division(t, who, k) by {
                        assert(keys[k] is None);
                    }
                    0
                },
            }
        },
        Err(_) => 0,
    }
}

/// A headquarters with an enemy next to it steps away, on its leash if it can, or
/// holds; within its aura of the division it holds; else it follows the division.
/// Without a division it holds.
pub proof fn law_headquarters_stay_out_of_the_fight(t: TurnView, b: &Book, who: int, reserved: Seq<HexCoord>)
    ensures
        ({
            let u = t.own[who];
            let r = duty(t, b, who, reserved, UnitRole::Headquarters);
            let near = enemy_distance(t.enemy, u.position);
            let none = Ok::<Option<HexCoord>, Query>(None);
            &&& division_anchor(t, b, who) == none ==> does(r, holding(t, who))
            &&& division_anchor(t, b, who) matches Ok(Some(anchor)) ==> {
                let aura = t.params.hq_aura_radius;
                &&& near <= 1 ==> (r matches Ok(a) ==> march_or_hold(
                    t,
                    who,
                    step_order(t, b, who, reserved, StepRule::Shadow { now: near as i64, anchor, leash: aura }),
                    a,
                ))
                &&& near > 1 && hex_distance(u.position, anchor) < aura ==> does(r, holding(t, who))
                &&& near > 1 && hex_distance(u.position, anchor) >= aura ==> r == follow_division(
                    t,
                    b,
                    who,
                    reserved,
                    anchor,
                )
            }
        }),
{
}

/// The hex is a free post for a headquarters: within its aura of the anchor, on the
/// map, and nobody fights on it.
pub open spec fn is_post(t: TurnView, anchor: HexCoord, h: HexCoord) -> bool {
    &&& hex_distance(anchor, h) < t.params.hq_aura_radius
    &&& t.grid.on_map(h)
    &&& !manned(t.all, h)
}

/// The posts of a headquarters are the free ones next to its anchor and in the second
/// ring, those nearest to the anchor first and of them those nearest to it.
#[verifier::rlimit(40)]
pub proof fn law_posts_are_taken_near_the_anchor(t: TurnView, u: BattalionUnit, anchor: HexCoord, h: HexCoord, x: int, y: int)
    requires
        posts_round(t, anchor).len() <= usize::MAX,
    ensures
        ranked_posts(t, u, anchor).contains(h) <==> is_post(t, anchor, h) && posts_round(t, anchor).contains(h),
        0 <= x < y < ranked_posts(t, u, anchor).len() ==> {
            let a = ranked_posts(t, u, anchor)[x];
            let c = ranked_posts(t, u, anchor)[y];
            ||| hex_distance(anchor, a) < hex_distance(anchor, c)
            ||| hex_distance(anchor, a) == hex_distance(anchor, c) && hex_distance(u.position, a) <= hex_distance(
                u.position,
                c,
            )
        },
{
    let ok = free_post(t, anchor);
    law_those_where(posts_round(t, anchor), ok);
    let posts = those_where(posts_round(t, anchor), ok);
    let keys = post_keys(posts, u, anchor);
    law_ranking(keys);
    let order = ranked(keys);
    crate::bearing::law_whoever_fights_holds_its_hex(t.all, 0, h);
    let s = ranked_posts(t, u, anchor);
    if s.contains(h) {
        let k = choose|k: int| 0 <= k < s.len() && s[k] == h;
        assert(posts[order[k] as int] == h);
        assert(posts.contains(h));
    }
    if posts.contains(h) {
        let k = choose|k: int| 0 <= k < posts.len() && posts[k] == h;
        let j = crate::relief::lemma_ranked_holds(order, k);
        assert(s[j] == h);
    }
    if 0 <= x < y < s.len() {
        assert(!crate::pick::before(keys[order[y] as int], keys[order[x] as int]));
    }
}

/// The posts round an anchor are its neighbours, then the hexes at the offsets of the
/// second ring.
pub proof fn law_the_second_ring_is_offset(offsets: Seq<HexCoord>, anchor: HexCoord, n: nat)
    requires
        n < offsets.len(),
        i32::MIN <= anchor.q + offsets[n as int].q <= i32::MAX,
        i32::MIN <= anchor.r + offsets[n as int].r <= i32::MAX,
    ensures
        shifted_upto(offsets, anchor, n + 1).len() == shifted_upto(offsets, anchor, n).len() + 1,
        shifted_upto(offsets, anchor, n + 1).last().q - anchor.q == offsets[n as int].q,
        shifted_upto(offsets, anchor, n + 1).last().r - anchor.r == offsets[n as int].r,
{
}

/// A headquarters that follows its division keeps marching to where it marches
/// already, if that is within its aura of the anchor and nobody fights there; else it
/// goes to the first post that it can reach, else up to the anchor itself, two hexes
/// off the enemy in each case, and holds where it can do neither.
pub proof fn law_headquarters_follow_to_a_post(t: TurnView, b: &Book, who: int, reserved: Seq<HexCoord>, anchor: HexCoord)
    ensures
        ({
            let u = t.own[who];
            let r = follow_division(t, b, who, reserved, anchor);
            let kept = u.move_to matches Some(dest) && hex_distance(anchor, dest) <= t.params.hq_aura_radius && !manned(
                t.all,
                dest,
            );
            let again = approach(t, b, who, reserved, u.move_to, Some(2));
            let post = to_a_post(t, b, who, reserved, ranked_posts(t, u, anchor), 0);
            &&& kept ==> forall|a: Act| #[trigger] offers(again, Some(a)) ==> does(r, a)
            &&& !kept || offers(again, None) ==> {
                &&& forall|a: Act| #[trigger] offers(post, Some(a)) ==> does(r, a)
                &&& offers(post, None) ==> (r matches Ok(a) ==> march_or_hold(
                    t,
                    who,
                    approach(t, b, who, reserved, Some(anchor), Some(2)),
                    a,
                ))
            }
        }),
{
    if let Some(dest) = t.own[who].move_to {
        crate::bearing::law_whoever_fights_holds_its_hex(t.all, 0, dest);
    }
}

/// The first post that can be reached is taken.
pub proof fn law_the_first_reachable_post_is_taken(t: TurnView, b: &Book, who: int, reserved: Seq<HexCoord>, posts: Seq<HexCoord>, k: nat, n: nat)
    requires
        k <= n < posts.len(),
        forall|j: int| k <= j < n ==> offers(approach(t, b, who, reserved, Some(#[trigger] posts[j]), Some(2)), None),
        approach(t, b, who, reserved, Some(posts[n as int]), Some(2)) matches Ok(Some(_)),
    ensures
        to_a_post(t, b, who, reserved, posts, k) == approach(t, b, who, reserved, Some(posts[n as int]), Some(2)),
    decreases n - k,
{
    if k < n {
        assert(offers(approach(t, b, who, reserved, Some(posts[k as int]), Some(2)), None));
        law_the_first_reachable_post_is_taken(t, b, who, reserved, posts, k + 1, n);
    }
}

/// A rearguard holds.
pub proof fn law_the_rearguard_holds(t: TurnView, b: &Book, who: int, reserved: Seq<HexCoord>)
    ensures
        does(duty(t, b, who, reserved, UnitRole::Rearguard), holding(t, who)),
{
}

/// An assaulting battalion with nobody to strike goes forward: in a charge one hex,
/// even in contact; under any other card but that of guerrillas it does not leave a
/// contact without an order, and marches otherwise: an infiltrator on the most weakly
/// held enemy, all others where marches go.
pub proof fn law_assaulters_advance(t: TurnView, b: &Book, who: int, reserved: Seq<HexCoord>)
    requires
        offers(assault(t, b, who), None),
    ensures
        ({
            let u = t.own[who];
            let r = duty(t, b, who, reserved, UnitRole::Assault);
            &&& t.tactic == CombatTactic::MassCharge ==> (r matches Ok(a) ==> march_or_hold(
                t,
                who,
                advance_step(t, b, who, reserved),
                a,
            ))
            &&& t.tactic != CombatTactic::MassCharge && t.tactic != CombatTactic::GuerrillaTactics ==> {
                &&& t.order is None && touched(t, who) ==> does(r, holding(t, who))
                &&& !(t.order is None && touched(t, who)) && t.tactic == CombatTactic::InfiltrationAssault ==> (r matches Ok(a)
                    ==> march_or_hold(
                    t,
                    who,
                    approach(t, b, who, reserved, isolated_enemy_hex(t.enemy, u.position), None),
                    a,
                ))
                &&& !(t.order is None && touched(t, who)) && t.tactic != CombatTactic::InfiltrationAssault ==> (r matches Ok(a)
                    ==> march_or_hold(t, who, approach(t, b, who, reserved, march_goal(t, reserved, u), None), a))
            }
        }),
{
    lemma_touched(t, who);
}

/// Raiders in contact step out of it, or retreat where they cannot; out of contact they
/// close in on the most isolated enemy, or blind, up to two hexes.
#[verifier::rlimit(40)]
pub proof fn law_raiders_hit_and_run(t: TurnView, b: &Book, who: int, reserved: Seq<HexCoord>)
    requires
        t.tactic == CombatTactic::GuerrillaTactics,
        offers(assault(t, b, who), None),
    ensures
        ({
            let u = t.own[who];
            let r = duty(t, b, who, reserved, UnitRole::Assault);
            let near = enemy_distance(t.enemy, u.position);
            let out = step_order(t, b, who, reserved, StepRule::Evade);
            &&& near <= 1 ==> {
                &&& forall|a: Act| #[trigger] offers(out, Some(a)) ==> does(r, a)
                &&& offers(out, None) ==> does(r, Act::Retreat { unit_id: u.id })
            }
            &&& near > 1 ==> (r matches Ok(a) ==> march_or_hold(
                t,
                who,
                approach(
                    t,
                    b,
                    who,
                    reserved,
                    if isolated_enemy_hex(t.enemy, u.position) is Some {
                        isolated_enemy_hex(t.enemy, u.position)
                    } else {
                        blind_goal(t, u.position)
                    },
                    Some(2),
                ),
                a,
            ))
        }),
{
}

/// Under the infiltration card line infantry out of contact, with an enemy in sight and
/// a known path to the most weakly held one that nobody has claimed, marches that path.
#[verifier::rlimit(40)]
pub proof fn law_infiltrators_march_on_the_most_weakly_held(
    t: TurnView,
    b: &Book,
    who: int,
    reserved: Seq<HexCoord>,
    rearguard: Option<usize>,
    e: HexCoord,
    k: int,
)
    requires
        t.tactic == CombatTactic::InfiltrationAssault,
        line_infantry(t.own[who], rearguard),
        offers(assault(t, b, who), None),
        !touched(t, who),
        isolated_enemy_hex(t.enemy, t.own[who].position) == Some(e),
        t.own[who].move_to is None,
        known_route(b, who, e, k) && b.routes@[k].path@.len() > 0,
        !crate::bearing::friend_holds(t, who, e),
        !reserved.contains(b.routes@[k].path@.last()),
    ensures
        does(
            duty(t, b, who, reserved, role_of(t.tactic, t.own[who], rearguard)),
            Act::MoveUnit { unit_id: t.own[who].id, path: b.routes@[k].path@ },
        ),
{
    let p = b.routes@[k].path@;
    lemma_touched(t, who);
    crate::posture::law_line_infantry_assaults_under_the_advancing_cards(t.own[who], rearguard);
    crate::bearing::law_marches_keep_their_destination(t, b, who, reserved, e, k, k);
    crate::bearing::law_a_march_goes_as_far_as_it_may(t, b, who, reserved, e, None, p, p.len() as int);
    assert(p.take(p.len() as int) =~= p);
    law_assaulters_advance(t, b, who, reserved);
}

/// A battalion without anything next to it has nobody to strike.
pub proof fn law_nobody_is_struck_out_of_contact(t: TurnView, b: &Book, who: int)
    requires
        t.order is None,
        forall|j: int|
            0 <= j < t.enemy.len() ==> hex_distance(t.own[who].position, (#[trigger] t.enemy[j]).position) != 1,
        forall|j: int|
            0 <= j < t.physical_foes.len() ==> hex_distance(t.own[who].position, (#[trigger] t.physical_foes[j]).position)
                != 1,
    ensures
        offers(assault(t, b, who), None),
{
    lemma_no_prey(t, b, who, t.enemy.len());
    let ok = crate::assault::blind_prey(t, t.own[who]);
    law_those_where(t.physical_foes, ok);
    let blind = those_where(t.physical_foes, ok);
    if blind.len() > 0 {
        assert(blind.contains(blind[0]));
        let j = choose|j: int| 0 <= j < t.physical_foes.len() && t.physical_foes[j] == blind[0];
        assert(hex_distance(t.own[who].position, t.physical_foes[j].position) != 1);
    }
    let prey = Seq::<BattalionUnit>::empty() + blind;
    assert(prey.len() == 0);
    law_least(crate::assault::target_keys(t, prey));
}

proof fn lemma_no_prey(t: TurnView, b: &Book, who: int, n: nat)
    requires
        n <= t.enemy.len(),
        forall|j: int|
            0 <= j < t.enemy.len() ==> hex_distance(t.own[who].position, (#[trigger] t.enemy[j]).position) != 1,
    ensures
        crate::assault::prey_upto(t, b, who, n) == Ok::<Seq<BattalionUnit>, Query>(Seq::empty()),
    decreases n,
{
    if n > 0 {
        lemma_no_prey(t, b, who, (n - 1) as nat);
        assert(hex_distance(t.own[who].position, t.enemy[n - 1].position) != 1);
        assert(crate::assault::is_prey(t, b, who, n - 1) == Ok::<bool, Query>(false));
    }
}

/// The battalion guards a flag: a defender without an order and not in a withdrawal, in
/// the zone of a flag that is captured by a third or more.
pub open spec fn on_guard(t: TurnView, who: int) -> bool {
    &&& t.side == Side::Defender && t.order is None && t.tactic != CombatTactic::TacticalWithdrawal
    &&& 3 * progress_at(t, t.own[who].position) >= t.params.flag_progress_cap
}

/// A battalion that guards a flag strikes or stays.
pub proof fn law_threatened_flags_are_not_given_up(t: TurnView, b: &Book, who: int, reserved: Seq<HexCoord>)
    requires
        on_guard(t, who),
    ensures
        ({
            let r = duty(t, b, who, reserved, UnitRole::HoldPosition);
            &&& forall|a: Act| #[trigger] offers(assault(t, b, who), Some(a)) ==> does(r, a)
            &&& offers(assault(t, b, who), None) ==> does(r, holding(t, who))
        }),
{
}

/// What the line does under each defensive card, guarding no flag. A withdrawal always
/// falls back; a delay only with the enemy next to it; both hold where they cannot.
/// Ambushes, river defences and the city's own in a city defence strike or hold;
/// outside the city that holds.
pub proof fn law_lines_that_stay(t: TurnView, b: &Book, who: int, reserved: Seq<HexCoord>)
    requires
        !on_guard(t, who),
    ensures
        ({
            let u = t.own[who];
            let r = duty(t, b, who, reserved, UnitRole::HoldPosition);
            let near = enemy_distance(t.enemy, u.position);
            let in_city = t.grid.on_map(u.position) && t.grid.content(u.position).urban;
            let strikes = t.tactic == CombatTactic::Ambush || t.tactic == CombatTactic::RiverDefense || (t.tactic
                == CombatTactic::UrbanDefense && in_city);
            &&& t.tactic == CombatTactic::TacticalWithdrawal || (t.tactic == CombatTactic::Delay && near <= 1) ==> (r matches Ok(
                a,
            ) ==> march_or_hold(t, who, back_step(t, b, who, reserved), a))
            &&& t.tactic == CombatTactic::Delay && near > 1 ==> does(r, holding(t, who))
            &&& strikes ==> {
                &&& forall|a: Act| #[trigger] offers(assault(t, b, who), Some(a)) ==> does(r, a)
                &&& offers(assault(t, b, who), None) ==> does(r, holding(t, who))
            }
            &&& t.tactic == CombatTactic::UrbanDefense && !in_city ==> does(r, holding(t, who))
        }),
{
}

/// What the line does under the cards that give and take ground, guarding no flag. An
/// elastic defence in contact strikes or falls back, within three hexes of the enemy it
/// screens two hexes off it, and farther off it holds. A counterattack strikes; else it
/// closes up to two hexes of an enemy within eight; else it takes cover. Without a
/// doctrine the line strikes or takes cover.
#[verifier::rlimit(40)]
pub proof fn law_lines_that_give_and_take(t: TurnView, b: &Book, who: int, reserved: Seq<HexCoord>)
    requires
        !on_guard(t, who),
    ensures
        ({
            let u = t.own[who];
            let r = duty(t, b, who, reserved, UnitRole::HoldPosition);
            let near = enemy_distance(t.enemy, u.position);
            let strike = assault(t, b, who);
            let close = screen(t, b, who, reserved, nearest_enemy_hex(t.enemy, u.position), 2);
            &&& t.tactic == CombatTactic::ElasticDefense ==> {
                &&& near <= 1 ==> {
                    &&& forall|a: Act| #[trigger] offers(strike, Some(a)) ==> does(r, a)
                    &&& offers(strike, None) ==> (r matches Ok(a) ==> march_or_hold(t, who, back_step(t, b, who, reserved), a))
                }
                &&& 1 < near <= 3 ==> (r matches Ok(a) ==> march_or_hold(t, who, close, a))
                &&& near > 3 ==> does(r, holding(t, who))
            }
            &&& t.tactic == CombatTactic::Counterattack ==> {
                &&& forall|a: Act| #[trigger] offers(strike, Some(a)) ==> does(r, a)
                &&& offers(strike, None) && 1 < near <= 8 ==> {
                    &&& forall|a: Act| #[trigger] offers(close, Some(a)) ==> does(r, a)
                    &&& offers(close, None) ==> (r matches Ok(a) ==> march_or_hold(t, who, cover_step(t, b, who, reserved), a))
                }
                &&& offers(strike, None) && (near <= 1 || near > 8) ==> (r matches Ok(a) ==> march_or_hold(
                    t,
                    who,
                    cover_step(t, b, who, reserved),
                    a,
                ))
            }
            &&& t.tactic == CombatTactic::Default ==> {
                &&& forall|a: Act| #[trigger] offers(strike, Some(a)) ==> does(r, a)
                &&& offers(strike, None) ==> (r matches Ok(a) ==> march_or_hold(t, who, cover_step(t, b, who, reserved), a))
            }
        }),
{
}

/// A flag is open to a battalion: not captured yet, a hex of its zone within six of it,
/// and no enemy fights in the zone.
pub open spec fn open_flag(t: TurnView, who: int, f: int) -> bool {
    let zone = t.flags[f].zone@;
    &&& t.flags[f].progress < t.params.flag_progress_cap
    &&& exists|z: int| 0 <= z < zone.len() && hex_distance(t.own[who].position, (#[trigger] zone[z]).hex) <= 6
    &&& forall|z: int| 0 <= z < zone.len() ==> !manned(t.enemy, (#[trigger] zone[z]).hex)
}

proof fn lemma_open_flag(t: TurnView, who: int, f: int)
    ensures
        flag_cleared(t, t.own[who], t.flags[f]) <==> open_flag(t, who, f),
{
    let u = t.own[who];
    let zone = t.flags[f].zone@;
    crate::relief::law_a_zone_is_as_near_as_its_nearest_hex(zone, u.position);
    assert forall|z: int| 0 <= z < zone.len() implies held(t.enemy, (#[trigger] zone[z]).hex) == manned(
        t.enemy,
        zone[z].hex,
    ) by {
        crate::bearing::law_whoever_fights_holds_its_hex(t.enemy, 0, zone[z].hex);
    }
    if open_flag(t, who, f) {
        let z = choose|z: int| 0 <= z < zone.len() && hex_distance(u.position, (#[trigger] zone[z]).hex) <= 6;
        assert(crate::goal::zone_distance(zone, u.position) <= hex_distance(u.position, zone[z].hex));
    }
    if flag_cleared(t, u, t.flags[f]) {
        let z = choose|z: int|
            0 <= z < zone.len() && crate::goal::zone_distance(zone, u.position) == hex_distance(
                u.position,
                (#[trigger] zone[z]).hex,
            );
        assert(hex_distance(u.position, zone[z].hex) <= 6);
    }
}

/// Under every other card the line strikes; with nobody to strike, an attacker, or a
/// division under orders, marches on its order or blind where no enemy that fights is in
/// sight or, for an attacker, a flag is open to it; everybody else holds.
#[verifier::rlimit(40)]
#[verifier::spinoff_prover]
pub proof fn law_lines_of_an_attack(t: TurnView, b: &Book, who: int, reserved: Seq<HexCoord>)
    requires
        !on_guard(t, who),
        t.tactic == CombatTactic::Blitz || t.tactic == CombatTactic::OverwhelmingFire || t.tactic == CombatTactic::MassCharge
            || t.tactic == CombatTactic::InfiltrationAssault || t.tactic == CombatTactic::GuerrillaTactics || t.tactic
            == CombatTactic::Encirclement || t.tactic == CombatTactic::Assault || t.tactic == CombatTactic::RiverAssault,
    ensures
        ({
            let u = t.own[who];
            let r = duty(t, b, who, reserved, UnitRole::HoldPosition);
            let strike = assault(t, b, who);
            let nobody = forall|j: int|
                0 <= j < t.enemy.len() ==> !((#[trigger] t.enemy[j]).state == UnitState::Active && t.enemy[j].fit);
            let flag_open = t.side == Side::Attacker && exists|f: int| 0 <= f < t.flags.len() && #[trigger] open_flag(t, who, f);
            let goal = if t.order is Some {
                order_goal(t, reserved, u)
            } else {
                blind_goal(t, u.position)
            };
            &&& forall|a: Act| #[trigger] offers(strike, Some(a)) ==> does(r, a)
            &&& offers(strike, None) && (t.side == Side::Attacker || t.order is Some) && (nobody || flag_open) ==> (r matches Ok(
                a,
            ) ==> march_or_hold(t, who, approach(t, b, who, reserved, goal, None), a))
            &&& offers(strike, None) && !((t.side == Side::Attacker || t.order is Some) && (nobody || flag_open)) ==> does(
                r,
                holding(t, who),
            )
        }),
{
    let u = t.own[who];
    assert forall|f: int| 0 <= f < t.flags.len() implies flag_cleared(t, u, #[trigger] t.flags[f]) == open_flag(t, who, f) by {
        lemma_open_flag(t, who, f);
    }
    if any_flag_cleared(t, u) {
        let f = choose|f: int| 0 <= f < t.flags.len() && flag_cleared(t, u, #[trigger] t.flags[f]);
        assert(open_flag(t, who, f));
    }
    if exists|f: int| 0 <= f < t.flags.len() && #[trigger] open_flag(t, who, f) {
        let f = choose|f: int| 0 <= f < t.flags.len() && #[trigger] open_flag(t, who, f);
        assert(flag_cleared(t, u, t.flags[f]));
    }
    if any_fighting(t.enemy) {
        let j = choose|j: int| 0 <= j < t.enemy.len() && (#[trigger] t.enemy[j]).effective();
        assert(t.enemy[j].fit);
    } else {
        assert forall|j: int| 0 <= j < t.enemy.len() implies !((#[trigger] t.enemy[j]).state == UnitState::Active
            && t.enemy[j].fit) by {
            assert(!t.enemy[j].effective());
        }
    }
}

/// An attacker without a doctrine plays the assault; every other side plays its card.
pub proof fn law_an_attacker_without_doctrine_assaults(side: Side, card: CombatTactic)
    ensures
        card != CombatTactic::Default || side == Side::Defender ==> played(side, card) == card,
        played(Side::Attacker, CombatTactic::Default) == CombatTactic::Assault,
{
}

/// What a side sees in its turn: the battalions that hold hexes are its own, the enemy
/// in sight and the friends that it does not command; those known to stand there are of
/// the other side; and nobody has an order.
pub proof fn law_what_a_side_sees(
    ai: TacticalAi,
    grid: &crate::grid::HexGrid,
    own: Seq<BattalionUnit>,
    enemy: Seq<BattalionUnit>,
    intel: Seq<Spot>,
    flags: Seq<FlagZone>,
    passive: Seq<BattalionUnit>,
    physical: Seq<BattalionUnit>,
    outlook: &Outlook,
)
    ensures
        ({
            let t = side_turn(ai, grid, own, enemy, intel, flags, passive, physical, outlook);
            &&& t.own == own && t.enemy == enemy && t.passive == passive && t.intel == intel && t.flags == flags
            &&& t.all == own + enemy + passive
            &&& t.physical_foes == physical.filter(|u: BattalionUnit| u.side != ai.side)
            &&& t.order is None && t.side == ai.side && t.tactic == ai.tactic && t.params == ai.params
            &&& t.outmatched == outlook.outmatched && t.second_ring == outlook.second_ring@ && t.grid == grid
        }),
{
    assert(opposing(ai.side) =~= (|u: BattalionUnit| u.side != ai.side));
    law_matches_keep_their_order(physical, opposing(ai.side));
}

/// An enemy is sensed by a division: one of its battalions is within the sensor radius,
/// which is one hex at least.
pub open spec fn near_the_division(ai: TacticalAi, own: Seq<BattalionUnit>, e: BattalionUnit) -> bool {
    exists|i: int|
        0 <= i < own.len() && {
            let d = hex_distance((#[trigger] own[i]).position, e.position);
            d <= 1 || d <= ai.params.div_sensor_radius
        }
}

/// What a division under orders sees: as targets only the enemies that it senses, but
/// those that it does not sense hold their hexes as well.
#[verifier::rlimit(40)]
#[verifier::spinoff_prover]
pub proof fn law_what_a_division_sees(
    ai: TacticalAi,
    grid: &crate::grid::HexGrid,
    own: Seq<BattalionUnit>,
    enemy: Seq<BattalionUnit>,
    intel: Seq<Spot>,
    flags: Seq<FlagZone>,
    order: Option<DivOrderTarget>,
    outlook: &Outlook,
    e: BattalionUnit,
)
    ensures
        ({
            let t = division_turn(ai, grid, own, enemy, intel, flags, order, outlook);
            &&& t.own == own && t.intel == intel && t.flags == flags && t.order == order
            &&& t.passive.len() == 0 && t.physical_foes.len() == 0
            &&& t.enemy == enemy.filter(|x: BattalionUnit| near_the_division(ai, own, x))
            &&& t.side == ai.side && t.tactic == ai.tactic && t.params == ai.params
            &&& enemy.contains(e) ==> exists|x: BattalionUnit| #[trigger] t.all.contains(x) && x.id == e.id && (x == e
                || t.enemy.contains(x))
            &&& own.contains(e) || t.enemy.contains(e) ==> t.all.contains(e)
            &&& t.all.contains(e) ==> own.contains(e) || enemy.contains(e)
        }),
{
    let f = sensed(ai.params, own);
    let g = |x: BattalionUnit| near_the_division(ai, own, x);
    assert forall|x: BattalionUnit| f(x) == #[trigger] g(x) by {
        if f(x) {
            let i = choose|i: int|
                0 <= i < own.len() && hex_distance((#[trigger] own[i]).position, x.position) <= sensor_radius(ai.params);
            assert(hex_distance(own[i].position, x.position) <= sensor_radius(ai.params));
        }
        if g(x) {
            let i = choose|i: int|
                0 <= i < own.len() && {
                    let d = hex_distance((#[trigger] own[i]).position, x.position);
                    d <= 1 || d <= ai.params.div_sensor_radius
                };
            assert(hex_distance(own[i].position, x.position) <= sensor_radius(ai.params));
        }
    }
    assert(f =~= g);
    law_matches_keep_their_order(enemy, f);
    law_those_where(enemy, f);
    let near = those_where(enemy, f);
    let far = crate::ai::not_among(near);
    law_those_where(enemy, far);
    let rest = those_where(enemy, far);
    let all = own + near + rest;
    let t = division_turn(ai, grid, own, enemy, intel, flags, order, outlook);
    assert(t.all == all && t.enemy == near);
    if own.contains(e) {
        let k = choose|k: int| 0 <= k < own.len() && own[k] == e;
        assert(all[k] == e);
    }
    if near.contains(e) {
        let k = choose|k: int| 0 <= k < near.len() && near[k] == e;
        assert(all[own.len() + k] == e);
    }
    if rest.contains(e) {
        let k = choose|k: int| 0 <= k < rest.len() && rest[k] == e;
        assert(all[own.len() + near.len() + k] == e);
    }
    if all.contains(e) {
        let k = choose|k: int| 0 <= k < all.len() && all[k] == e;
        if k < own.len() {
            assert(own[k] == e);
        } else if k < own.len() + near.len() {
            assert(near[k - own.len()] == e);
            assert(near.contains(e));
        } else {
            assert(rest[k - own.len() - near.len()] == e);
            assert(rest.contains(e));
        }
    }
    if enemy.contains(e) {
        if far(e) {
            assert(rest.contains(e));
            assert(t.all.contains(e));
        } else {
            let i = choose|i: int| 0 <= i < near.len() && (#[trigger] near[i]).id == e.id;
            assert(all[own.len() + i] == near[i]);
            assert(t.all.contains(near[i]));
            assert(t.enemy.contains(near[i]));
        }
    }
}

/// What is known of the enemy's zone: the hexes that are given, or none; a single
/// objective is a zone of one hex.
pub proof fn law_what_is_known_is_what_is_given(h: HexCoord, v: &Vec<Spot>)
    ensures
        crate::ai::single(None).len() == 0,
        crate::ai::single(Some(h)).len() == 1 && crate::ai::single(Some(h))[0].hex == h,
        crate::ai::listed(None::<&Vec<Spot>>).len() == 0,
        crate::ai::listed(Some(v)) == v@,
{
}

/// The posts round an anchor are all of its neighbours and then all hexes of the second
/// ring that the coordinates reach.
pub proof fn law_both_rings_are_looked_at(t: TurnView, anchor: HexCoord, k: int)
    requires
        forall|i: int|
            0 <= i < t.second_ring.len() ==> i32::MIN <= anchor.q + (#[trigger] t.second_ring[i]).q <= i32::MAX && i32::MIN
                <= anchor.r + t.second_ring[i].r <= i32::MAX,
    ensures
        ({
            let n = t.grid.around(anchor).len();
            let posts = posts_round(t, anchor);
            &&& posts.len() == n + t.second_ring.len()
            &&& 0 <= k < n ==> posts[k] == t.grid.around(anchor)[k]
            &&& n <= k < posts.len() ==> posts[k].q == anchor.q + t.second_ring[k - n].q && posts[k].r == anchor.r
                + t.second_ring[k - n].r
        }),
{
    lemma_shifted(t.second_ring, anchor, t.second_ring.len());
}

proof fn lemma_shifted(offsets: Seq<HexCoord>, anchor: HexCoord, n: nat)
    requires
        n <= offsets.len(),
        forall|i: int|
            0 <= i < offsets.len() ==> i32::MIN <= anchor.q + (#[trigger] offsets[i]).q <= i32::MAX && i32::MIN <= anchor.r
                + offsets[i].r <= i32::MAX,
    ensures
        shifted_upto(offsets, anchor, n).len() == n,
        forall|k: int|
            0 <= k < n ==> (#[trigger] shifted_upto(offsets, anchor, n)[k]).q == anchor.q + offsets[k].q && shifted_upto(
                offsets,
                anchor,
                n,
            )[k].r == anchor.r + offsets[k].r,
    decreases n,
{
    if n > 0 {
        lemma_shifted(offsets, anchor, (n - 1) as nat);
        assert(i32::MIN <= anchor.q + offsets[n - 1].q <= i32::MAX);
        let rest = shifted_upto(offsets, anchor, (n - 1) as nat);
        let s = shifted_upto(offsets, anchor, n);
        assert forall|k: int| 0 <= k < n implies (#[trigger] s[k]).q == anchor.q + offsets[k].q && s[k].r == anchor.r
            + offsets[k].r by {
            if k < n - 1 {
                assert(s[k] == rest[k]);
            }
        }
    }
}

} // verus!
