//! What holds of every answer to threatened flags, and of every command of a plan.
use vstd::prelude::*;
use crate::action::Act;
use crate::duty::duty;
use crate::goal::{in_spots, zone_distance};
use crate::hex::{hex_distance, HexCoord};
use crate::march::{approach, screen};
use crate::pick::{
    indices, law_first_where, law_least, law_ranking, law_those_where, least, ranked, those_where,
};
use crate::planner::{
    command, commands_upto, division_plan, flag_defense, flag_order, flag_pool, pool_keys, respond,
    respond_upto, send, send_one, sendable, sent_to, share_of, threat_keys, threatened,
    total_progress, turn_plan, turn_rearguard, under_threat, ResponseView,
};
use crate::posture::law_the_enemy_is_as_near_as_its_nearest;
use crate::retreat::namesake;
use crate::role::{rearguard_of, role_of};
use crate::tactic::CombatTactic;
use crate::turn::{enemy_distance, number, place, Book, Query, Spot, TurnView};
use crate::unit::{BattalionUnit, Side, UnitState};

verus! {

/// A zone is as near as the nearest of its hexes; one without hexes is farther than
/// any map reaches.
pub proof fn law_a_zone_is_as_near_as_its_nearest_hex(zone: Seq<Spot>, h: HexCoord)
    ensures
        forall|k: int| 0 <= k < zone.len() ==> zone_distance(zone, h) <= hex_distance(h, (#[trigger] zone[k]).hex),
        0 <= zone_distance(zone, h) <= 0x7fff_ffff,
        zone_distance(zone, h) == 0x7fff_ffff || exists|k: int|
            0 <= k < zone.len() && zone_distance(zone, h) == hex_distance(h, (#[trigger] zone[k]).hex),
    decreases zone.len(),
{
    if zone.len() > 0 {
        let t = zone.drop_last();
        law_a_zone_is_as_near_as_its_nearest_hex(t, h);
        assert(zone.last() == zone[zone.len() - 1]);
        assert forall|j: int| 0 <= j < t.len() implies t[j] == #[trigger] zone[j] by {}
        if zone_distance(t, h) != 0x7fff_ffff {
            let k = choose|k: int| 0 <= k < t.len() && zone_distance(t, h) == hex_distance(h, (#[trigger] t[k]).hex);
            assert(zone[k] == t[k]);
        }
    }
}

/// Whoever is sent to a flag is the nearest that is left: some hex of the flag's
/// zone is no farther from it than any hex of the zone is from any other battalion
/// of the pool, and nearer than any is from one listed before it. It alone leaves
/// the pool, and at most one order is added: the one to it, by its id.
#[verifier::rlimit(40)]
pub proof fn law_the_nearest_is_sent(t: TurnView, b: &Book, flag: int, r: ResponseView, m: int, z: int) -> (k: int)
    requires
        0 <= m < r.pool.len(),
        0 <= z < t.flags[flag].zone@.len(),
        hex_distance(t.own[r.pool[m] as int].position, t.flags[flag].zone@[z].hex) < 0x7fff_ffff,
    ensures
        send_one(t, b, flag, r) matches Ok(next) ==> {
            &&& 0 <= k < r.pool.len()
            &&& next.pool == r.pool.remove(k)
            &&& match flag_order(t, b, r.pool[k] as int, r.reserved, flag) {
                Ok(Some(a)) => next.sent == r.sent.push((t.own[r.pool[k] as int].id, a)),
                Ok(None) => next.sent == r.sent,
                Err(_) => false,
            }
            &&& exists|y: int|
                0 <= y < t.flags[flag].zone@.len() && hex_distance(
                    t.own[r.pool[k] as int].position,
                    (#[trigger] t.flags[flag].zone@[y]).hex,
                ) <= hex_distance(t.own[r.pool[m] as int].position, t.flags[flag].zone@[z].hex)
            &&& m < k ==> exists|y: int|
                0 <= y < t.flags[flag].zone@.len() && hex_distance(
                    t.own[r.pool[k] as int].position,
                    (#[trigger] t.flags[flag].zone@[y]).hex,
                ) < hex_distance(t.own[r.pool[m] as int].position, t.flags[flag].zone@[z].hex)
        },
{
    let keys = pool_keys(t, r.pool, flag);
    let zone = t.flags[flag].zone@;
    law_least(keys);
    assert(keys[m] is Some);
    let k = least(keys)->0;
    let here = t.own[r.pool[k] as int].position;
    let there = t.own[r.pool[m] as int].position;
    law_a_zone_is_as_near_as_its_nearest_hex(zone, here);
    law_a_zone_is_as_near_as_its_nearest_hex(zone, there);
    assert(!crate::pick::before(keys[m]->0, keys[k]->0));
    assert(zone_distance(zone, there) <= hex_distance(there, zone[z].hex));
    assert(zone_distance(zone, here) <= zone_distance(zone, there));
    let y = choose|y: int| 0 <= y < zone.len() && zone_distance(zone, here) == hex_distance(here, (#[trigger] zone[y]).hex);
    assert(hex_distance(here, zone[y].hex) <= hex_distance(there, zone[z].hex));
    k
}

/// The progress that captures a flag; a capture takes some progress in any case.
pub open spec fn whole_capture(t: TurnView) -> int {
    if t.params.flag_progress_cap <= 0 {
        1
    } else {
        t.params.flag_progress_cap as int
    }
}

/// A flag that is captured by more than two thirds is marched into, by way of the
/// nearest hex of its zone; one captured less is screened two hexes off.
pub proof fn law_flags_are_entered_late_and_screened_early(
    t: TurnView,
    b: &Book,
    who: int,
    reserved: Seq<HexCoord>,
    flag: int,
)
    ensures
        t.flags[flag].progress * 3 > whole_capture(t) * 2 ==> (place(
            b,
            Query::NearestHex { flag: flag as usize, who: who as usize },
        ) matches Ok(goal) ==> flag_order(t, b, who, reserved, flag) == approach(t, b, who, reserved, goal, None)),
        t.flags[flag].progress * 3 <= whole_capture(t) * 2 ==> flag_order(t, b, who, reserved, flag)
            == screen(t, b, who, reserved, Some(t.flags[flag].anchor), 2),
{
}

/// A flag captured by less than a third draws no response; any other draws as many
/// battalions as its share, but no more than there are.
pub proof fn law_flags_draw_their_share(t: TurnView, b: &Book, flag: int, total: int, r: ResponseView)
    requires
        r.pool.len() <= usize::MAX,
    ensures
        t.flags[flag].progress * 3 < whole_capture(t) ==> respond(t, b, flag, total, r)
            == Ok::<ResponseView, Query>(r),
        t.flags[flag].progress * 3 >= whole_capture(t) && r.pool.len() > 0 ==> (number(
            b,
            Query::Share { pool: r.pool.len() as usize, progress: t.flags[flag].progress, total: total as i128 },
        ) matches Ok(share) ==> (respond(t, b, flag, total, r) matches Ok(next) ==> {
            &&& share >= r.pool.len() ==> next.pool.len() == 0
            &&& 0 <= share <= r.pool.len() ==> next.pool.len() == r.pool.len() - share
            &&& share < 0 ==> next == r
        })),
{
    if t.flags[flag].progress * 3 >= whole_capture(t) && r.pool.len() > 0 {
        if let Ok(share) = number(
            b,
            Query::Share { pool: r.pool.len() as usize, progress: t.flags[flag].progress, total: total as i128 },
        ) {
            lemma_send_shrinks(t, b, flag, r, share_of(r.pool.len(), share));
        }
    }
}

proof fn lemma_send_shrinks(t: TurnView, b: &Book, flag: int, r: ResponseView, n: nat)
    requires
        n <= r.pool.len(),
    ensures
        send(t, b, flag, r, n) matches Ok(next) ==> next.pool.len() == r.pool.len() - n,
    decreases n,
{
    if n > 0 {
        lemma_send_shrinks(t, b, flag, r, (n - 1) as nat);
        if let Ok(next) = send(t, b, flag, r, (n - 1) as nat) {
            let keys = pool_keys(t, next.pool, flag);
            law_least(keys);
            assert(keys[0] is Some);
        }
    }
}

/// The flags under threat are exactly those whose capture has begun, the most
/// captured first; equally captured ones go by the hex.
#[verifier::rlimit(40)]
pub proof fn law_the_most_captured_flags_come_first(t: TurnView, f: int, x: int, y: int)
    requires
        t.flags.len() <= usize::MAX,
        0 <= f < t.flags.len(),
    ensures
        threatened(t).contains(f as usize) <==> t.flags[f].progress > 0,
        0 <= x < y < threatened(t).len() ==> {
            let a = t.flags[threatened(t)[x] as int];
            let c = t.flags[threatened(t)[y] as int];
            ||| a.progress > c.progress
            ||| a.progress == c.progress && a.anchor.q < c.anchor.q
            ||| a.progress == c.progress && a.anchor.q == c.anchor.q && a.anchor.r <= c.anchor.r
        },
        0 <= x < y < threatened(t).len() ==> threatened(t)[x] != threatened(t)[y],
{
    let all = indices(t.flags.len());
    let ok = under_threat(t);
    law_those_where(all, ok);
    let flags = those_where(all, ok);
    let keys = threat_keys(t, flags);
    law_ranking(keys);
    let order = ranked(keys);
    assert(all[f] == f as usize);
    assert(all.contains(f as usize));
    crate::firing::lemma_filter_of_indices(t.flags.len(), ok);
    if t.flags[f].progress > 0 {
        assert(flags.contains(f as usize));
        let k = choose|k: int| 0 <= k < flags.len() && flags[k] == f as usize;
        let j = lemma_ranked_holds(order, k);
        assert(threatened(t)[j] == f as usize);
    }
    if threatened(t).contains(f as usize) {
        let j = choose|j: int| 0 <= j < threatened(t).len() && threatened(t)[j] == f as usize;
        assert(flags[order[j] as int] == f as usize);
        assert(flags.contains(f as usize));
    }
    if 0 <= x < y < threatened(t).len() {
        assert(!crate::pick::before(keys[order[y] as int], keys[order[x] as int]));
        assert(threatened(t)[x] == flags[order[x] as int] && threatened(t)[y] == flags[order[y] as int]);
        assert(order[x] != order[y]);
    }
}

/// A list of all numbers below its length holds each of them.
pub(crate) proof fn lemma_ranked_holds(order: Seq<usize>, k: int) -> (j: int)
    requires
        order.no_duplicates(),
        forall|i: int| 0 <= i < order.len() ==> (#[trigger] order[i]) < order.len(),
        0 <= k < order.len() <= usize::MAX,
    ensures
        0 <= j < order.len() && order[j] == k as usize,
{
    let s = order.to_set();
    order.unique_seq_to_set();
    let all = vstd::set_lib::set_int_range(0, order.len() as int).map(|i: int| i as usize);
    vstd::set_lib::lemma_int_range(0, order.len() as int);
    assert(vstd::relations::injective_on(|i: int| i as usize, vstd::set_lib::set_int_range(0, order.len() as int)));
    vstd::set_lib::lemma_map_size(vstd::set_lib::set_int_range(0, order.len() as int), all, |i: int| i as usize);
    assert(s.subset_of(all)) by {
        assert forall|x: usize| s.contains(x) implies all.contains(x) by {
            let i = choose|i: int| 0 <= i < order.len() && order[i] == x;
            assert(vstd::set_lib::set_int_range(0, order.len() as int).contains(x as int));
        }
    }
    vstd::set_lib::lemma_subset_equality(s, all);
    assert(vstd::set_lib::set_int_range(0, order.len() as int).contains(k));
    assert(all.contains(k as usize));
    assert(s.contains(k as usize));
    choose|j: int| 0 <= j < order.len() && order[j] == k as usize
}

/// Battalion `i` is free to be sent to a flag: it fights, has not acted, is no
/// headquarters, artillery or gun, no fighting enemy is on its hex or next to it,
/// and it stands in no flag's zone.
pub open spec fn free_to_go(t: TurnView, i: int) -> bool {
    let u = t.own[i];
    &&& u.state == UnitState::Active && u.fit && !u.acted
    &&& !u.kind.hq && !u.kind.indirect_artillery && !u.kind.gun
    &&& forall|j: int|
        0 <= j < t.enemy.len() && (#[trigger] t.enemy[j]).state == UnitState::Active && t.enemy[j].fit ==> hex_distance(
            u.position,
            t.enemy[j].position,
        ) > 1
    &&& forall|f: int, z: int|
        0 <= f < t.flags.len() && 0 <= z < t.flags[f].zone@.len() ==> (#[trigger] t.flags[f].zone@[z]).hex != u.position
}

proof fn lemma_sendable(t: TurnView, i: int)
    requires
        0 <= i < t.own.len() <= usize::MAX,
    ensures
        sendable(t)(i as usize) <==> free_to_go(t, i),
{
    let u = t.own[i];
    law_the_enemy_is_as_near_as_its_nearest(t.enemy, u.position);
    if sendable(t)(i as usize) {
        assert forall|j: int| 0 <= j < t.enemy.len() && (#[trigger] t.enemy[j]).state == UnitState::Active
            && t.enemy[j].fit implies hex_distance(u.position, t.enemy[j].position) > 1 by {
            assert(crate::posture::fights(t.enemy, j));
        }
        assert forall|f: int, z: int| 0 <= f < t.flags.len() && 0 <= z < t.flags[f].zone@.len() implies (
        #[trigger] t.flags[f].zone@[z]).hex != u.position by {
            assert(!in_spots(t.flags[f].zone@, u.position));
        }
    }
    if free_to_go(t, i) {
        if enemy_distance(t.enemy, u.position) <= 1 {
            let j = choose|j: int|
                0 <= j < t.enemy.len() && #[trigger] crate::posture::fights(t.enemy, j) && enemy_distance(
                    t.enemy,
                    u.position,
                ) == hex_distance(u.position, t.enemy[j].position);
            assert(t.enemy[j].fit);
        }
        assert forall|f: int| 0 <= f < t.flags.len() implies !in_spots((#[trigger] t.flags[f]).zone@, u.position) by {}
    }
}

/// The pool for threatened flags holds exactly those that go by the ids of the
/// battalions that are free to go.
pub proof fn law_the_free_are_sent_to_flags(t: TurnView, i: int)
    requires
        t.own.len() <= usize::MAX,
    ensures
        0 <= i < t.own.len() && free_to_go(t, i) ==> flag_pool(t).contains(namesake(t.own, i)),
        0 <= i < flag_pool(t).len() ==> exists|j: int|
            0 <= j < t.own.len() && #[trigger] free_to_go(t, j) && flag_pool(t)[i] == namesake(t.own, j),
{
    let all = indices(t.own.len());
    let ok = sendable(t);
    law_those_where(all, ok);
    let those = those_where(all, ok);
    if 0 <= i < t.own.len() && free_to_go(t, i) {
        lemma_sendable(t, i);
        assert(all[i] == i as usize);
        assert(those.contains(i as usize));
        let k = choose|k: int| 0 <= k < those.len() && those[k] == i as usize;
        assert(flag_pool(t)[k] == namesake(t.own, i));
    }
    if 0 <= i < flag_pool(t).len() {
        assert(those.contains(those[i]));
        let j = choose|j: int| 0 <= j < all.len() && all[j] == those[i];
        lemma_sendable(t, j);
        assert(free_to_go(t, j));
    }
}

/// Only a defender answers threats to flags, and only where some battalion is sent
/// does anybody go.
pub proof fn law_an_attacker_answers_no_threat(t: TurnView, b: &Book)
    requires
        t.side == Side::Attacker,
    ensures
        flag_defense(t, b) matches Ok(r) && r.sent.len() == 0 && r.reserved.len() == 0,
{
}

/// A defender answers the threatened flags one after the other, each with whoever
/// the flags before it have left.
pub proof fn law_flags_are_answered_in_their_order(t: TurnView, b: &Book, n: nat)
    requires
        t.side == Side::Defender,
        n < threatened(t).len(),
    ensures
        ({
            let flags = threatened(t);
            let total = total_progress(t, flags);
            let start = ResponseView { pool: flag_pool(t), reserved: Seq::empty(), sent: Seq::empty() };
            &&& flag_defense(t, b) == respond_upto(t, b, flags, total, start, flags.len())
            &&& respond_upto(t, b, flags, total, start, 0) == Ok::<ResponseView, Query>(start)
            &&& respond_upto(t, b, flags, total, start, n + 1) matches Ok(next) ==> (respond_upto(
                t,
                b,
                flags,
                total,
                start,
                n,
            ) matches Ok(left) && respond(t, b, flags[n as int] as int, total, left) == Ok::<ResponseView, Query>(next))
        }),
{
}

/// The progress of flags adds up.
pub proof fn law_progress_adds_up(t: TurnView, flags: Seq<usize>, f: usize)
    ensures
        total_progress(t, Seq::empty()) == 0,
        total_progress(t, flags.push(f)) == total_progress(t, flags) + t.flags[f as int].progress,
{
    assert(flags.push(f).drop_last() =~= flags);
}

/// The hexes that marches end on, in order.
pub open spec fn ends(acts: Seq<Act>) -> Seq<HexCoord>
    decreases acts.len(),
{
    if acts.len() == 0 {
        Seq::empty()
    } else {
        match acts.last() {
            Act::MoveUnit { unit_id: _, path } => if path.len() > 0 {
                ends(acts.drop_last()).push(path[path.len() - 1])
            } else {
                ends(acts.drop_last())
            },
            _ => ends(acts.drop_last()),
        }
    }
}

/// What a battalion that takes orders is told: to hold if it has acted; else the
/// first order to its id among those to flags; else its duty in its role, in sight
/// of the hexes that are taken.
pub open spec fn told(
    t: TurnView,
    b: &Book,
    sent: Seq<(usize, Act)>,
    rearguard: Option<usize>,
    taken: Seq<HexCoord>,
    i: int,
    a: Act,
) -> bool {
    let u = t.own[i];
    let named = exists|k: int| 0 <= k < sent.len() && (#[trigger] sent[k]).0 == u.id;
    &&& u.acted ==> a == Act::Hold { unit_id: u.id }
    &&& !u.acted && named ==> exists|k: int|
        0 <= k < sent.len() && (#[trigger] sent[k]).0 == u.id && a == sent[k].1 && forall|j: int|
            0 <= j < k ==> (#[trigger] sent[j]).0 != u.id
    &&& !u.acted && !named ==> duty(t, b, i, taken, role_of(t.tactic, u, rearguard)) == Ok::<Act, Query>(a)
}

/// The battalion takes an order of the plan: it fights and, in a division under
/// orders, is not under the player's own command.
pub open spec fn takes_orders(u: BattalionUnit, division: bool) -> bool {
    u.state == UnitState::Active && u.fit && !(division && u.manual_override)
}

proof fn lemma_command(
    t: TurnView,
    b: &Book,
    sent: Seq<(usize, Act)>,
    rearguard: Option<usize>,
    division: bool,
    reserved: Seq<HexCoord>,
    i: int,
)
    ensures
        match command(t, b, sent, rearguard, division, reserved, i) {
            Ok(Some(a)) => takes_orders(t.own[i], division) && told(t, b, sent, rearguard, reserved, i, a),
            Ok(None) => !takes_orders(t.own[i], division),
            Err(_) => takes_orders(t.own[i], division),
        },
{
    law_first_where(sent, sent_to(t.own[i].id));
}

/// Every battalion that takes orders is told its own command, in their order; what
/// is taken for it is what was taken for flags and where the marches before it end.
#[verifier::rlimit(40)]
#[verifier::spinoff_prover]
pub proof fn law_each_is_told_its_own(
    t: TurnView,
    b: &Book,
    sent: Seq<(usize, Act)>,
    rearguard: Option<usize>,
    division: bool,
    reserved: Seq<HexCoord>,
    n: nat,
) -> (place: spec_fn(int) -> int)
    requires
        n <= t.own.len(),
    ensures
        commands_upto(t, b, sent, rearguard, division, reserved, n) matches Ok(p) ==> {
            &&& p.reserved == reserved + ends(p.acts)
            &&& p.acts.len() == t.own.take(n as int).filter(|u: BattalionUnit| takes_orders(u, division)).len()
            &&& forall|i: int|
                0 <= i < n && takes_orders(#[trigger] t.own[i], division) ==> {
                    &&& 0 <= place(i) < p.acts.len()
                    &&& place(i) == t.own.take(i).filter(|u: BattalionUnit| takes_orders(u, division)).len()
                    &&& told(t, b, sent, rearguard, reserved + ends(p.acts.take(place(i))), i, p.acts[place(i)])
                }
        },
    decreases n,
{
    let ok = |u: BattalionUnit| takes_orders(u, division);
    let place = |i: int| t.own.take(i).filter(ok).len() as int;
    reveal(Seq::filter);
    if n == 0 {
        assert(t.own.take(0).filter(ok) =~= Seq::<BattalionUnit>::empty());
        assert(reserved + ends(Seq::<Act>::empty()) =~= reserved);
    } else {
        let m = (n - 1) as nat;
        let before = law_each_is_told_its_own(t, b, sent, rearguard, division, reserved, m);
        assert(t.own.take(n as int).drop_last() =~= t.own.take(m as int));
        assert(t.own.take(n as int).last() == t.own[m as int]);
        if let Ok(p) = commands_upto(t, b, sent, rearguard, division, reserved, m) {
            lemma_command(t, b, sent, rearguard, division, p.reserved, m as int);
            if let Ok(q) = commands_upto(t, b, sent, rearguard, division, reserved, n) {
                match command(t, b, sent, rearguard, division, p.reserved, m as int) {
                    Ok(Some(a)) => {
                        assert(q.acts.drop_last() =~= p.acts);
                        assert(q.reserved =~= reserved + ends(q.acts));
                    },
                    _ => {},
                }
                assert forall|i: int| 0 <= i < n && takes_orders(#[trigger] t.own[i], division) implies {
                    &&& 0 <= place(i) < q.acts.len()
                    &&& place(i) == t.own.take(i).filter(ok).len()
                    &&& told(t, b, sent, rearguard, reserved + ends(q.acts.take(place(i))), i, q.acts[place(i)])
                } by {
                    if i < m {
                        assert(before(i) == place(i));
                        assert(q.acts.take(place(i)) =~= p.acts.take(place(i)));
                        assert(q.acts[place(i)] == p.acts[place(i)]);
                    } else {
                        assert(p.acts.len() == place(i));
                        assert(q.acts.take(place(i)) =~= p.acts);
                    }
                }
            }
        }
    }
    place
}

/// Only a withdrawal has a rearguard.
pub proof fn law_only_a_withdrawal_has_a_rearguard(t: TurnView)
    ensures
        t.tactic != CombatTactic::TacticalWithdrawal ==> turn_rearguard(t) is None,
        t.tactic == CombatTactic::TacticalWithdrawal ==> turn_rearguard(t) == rearguard_of(t.own, t.enemy),
{
}

/// A side's plan is what its battalions are told, with the flags answered first and
/// the end of the turn last.
pub proof fn law_a_turn_is_what_each_is_told(t: TurnView, b: &Book)
    ensures
        turn_plan(t, b) matches Ok(s) ==> (flag_defense(t, b) matches Ok(r) && (commands_upto(
            t,
            b,
            r.sent,
            turn_rearguard(t),
            false,
            r.reserved,
            t.own.len(),
        ) matches Ok(p) && s == p.acts.push(Act::EndTurn))),
{
}

/// A division's plan is what its battalions are told, without any answer to flags,
/// without a rearguard and without the end of the turn.
pub proof fn law_a_division_is_what_each_is_told(t: TurnView, b: &Book)
    ensures
        division_plan(t, b) matches Ok(s) ==> (commands_upto(t, b, Seq::empty(), None, true, Seq::empty(), t.own.len()) matches Ok(
            p,
        ) && s == p.acts),
{
}

/// Who may be sent to a flag, said of each battalion alone.
pub proof fn law_who_may_be_sent_to_a_flag(t: TurnView, i: int)
    requires
        0 <= i < t.own.len() <= usize::MAX,
    ensures
        ({
            let u = t.own[i];
            sendable(t)(i as usize) <==> {
                &&& u.state == UnitState::Active && u.fit && !u.acted && !u.kind.hq && !u.kind.indirect_artillery
                    && !u.kind.gun
                &&& enemy_distance(t.enemy, u.position) >= 2
                &&& forall|f: int, z: int|
                    0 <= f < t.flags.len() && 0 <= z < t.flags[f].zone@.len() ==> (#[trigger] t.flags[f].zone@[z]).hex
                        != u.position
            }
        }),
{
    lemma_sendable(t, i);
    law_the_enemy_is_as_near_as_its_nearest(t.enemy, t.own[i].position);
    let u = t.own[i];
    if enemy_distance(t.enemy, u.position) >= 2 {
        assert forall|j: int| 0 <= j < t.enemy.len() && (#[trigger] t.enemy[j]).state == UnitState::Active
            && t.enemy[j].fit implies hex_distance(u.position, t.enemy[j].position) > 1 by {
            assert(crate::posture::fights(t.enemy, j));
        }
    }
}

} // verus!
