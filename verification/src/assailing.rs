//! What holds of every assault and of every fire mission.
use vstd::prelude::*;
use crate::action::Act;
use crate::assault::{
    all_prey, among, as_good_as, assault, backing, blind_prey, by_hex, chosen_prey, fighting_round,
    fights_through, in_sight, is_prey, joining, joining_with, next_to, odds_acceptable, permitted,
    prey_upto, quarry, stormed, target_key, target_keys,
};
use crate::barrage::{
    at_full, barrage_key, best_mission, by_point, even_upto, fire_target, friends_in_blast,
    in_reach, plain, precise_target, preparation, reach_of, safe_for, safe_target, volley_key,
    weakest, weakness, weakness_keys, with_id,
};
use crate::bearing::manned;
use crate::geometry::{law_an_id_stands_for_its_first_bearer, law_matches_keep_their_order};
use crate::hex::{hex_distance, HexCoord};
use crate::pick::{
    count_where, first_where, indices, law_first_where, law_least, law_ranking, law_those_where, least, ranked, those_where, Key,
};
use crate::posture::{helpers, law_support_is_by_fighting_neighbours};
use crate::tactic::CombatTactic;
use crate::turn::{
    gathered, lemma_gathered_len, number, truth, Book, DivOrderTarget, Query, TurnView,
};
use crate::unit::{BattalionUnit, UnitState};

verus! {

/// The battalion fights.
pub open spec fn in_the_fight(u: BattalionUnit) -> bool {
    u.state == UnitState::Active && u.fit
}

/// How many battalions of the side, commanded or not, there are of a kind.
pub open spec fn friends(t: TurnView, ok: spec_fn(BattalionUnit) -> bool) -> nat {
    t.own.filter(ok).len() + t.passive.filter(ok).len()
}

proof fn lemma_friends(t: TurnView, f: spec_fn(BattalionUnit) -> bool, g: spec_fn(BattalionUnit) -> bool)
    requires
        forall|u: BattalionUnit| #[trigger] f(u) == g(u),
    ensures
        among(t, f) == friends(t, g),
{
    assert(f =~= g);
    law_matches_keep_their_order(t.own, f);
    law_matches_keep_their_order(t.passive, f);
}

/// The card lets the enemy be assaulted: a withdrawal, a fire plan and a delay let
/// nobody; an elastic defence only one that nobody helps; a counterattack also one
/// with less than half of its organisation; a river defence one in a ford; an
/// infiltration one in less than strong cover with at most one helper; and every
/// other card everybody.
pub open spec fn card_lets(t: TurnView, e: BattalionUnit) -> bool {
    &&& t.tactic != CombatTactic::TacticalWithdrawal && t.tactic != CombatTactic::OverwhelmingFire && t.tactic
        != CombatTactic::Delay
    &&& t.tactic == CombatTactic::ElasticDefense ==> helpers(t.enemy, e) == 0
    &&& t.tactic == CombatTactic::Counterattack ==> helpers(t.enemy, e) == 0 || e.org_ratio < 0x3f00_0000u32
    &&& t.tactic == CombatTactic::RiverDefense ==> t.grid.on_map(e.position) && t.grid.content(e.position).river
    &&& t.tactic == CombatTactic::InfiltrationAssault ==> helpers(t.enemy, e) <= 1 && (t.grid.on_map(e.position)
        ==> t.grid.content(e.position).cover < 0x3e99_999ai64)
}

/// The enemies that fight on the hex or next to it are fewer than three to each of
/// the battalion and its friends that fight there.
pub open spec fn fair_odds(t: TurnView, u: BattalionUnit, h: HexCoord) -> bool {
    t.enemy.filter(|e: BattalionUnit| in_the_fight(e) && hex_distance(e.position, h) <= 1).len() < 3 * (1 + friends(
        t,
        |o: BattalionUnit| in_the_fight(o) && o.id != u.id && hex_distance(o.position, h) <= 1,
    ))
}

/// An enemy in a city or out of sight that has less than two fifths of its
/// organisation, or that has next to it at least three friends to each of it and its
/// helpers.
pub open spec fn overrun(t: TurnView, e: BattalionUnit) -> bool {
    let unseen = forall|j: int| 0 <= j < t.enemy.len() ==> (#[trigger] t.enemy[j]).id != e.id;
    &&& unseen || (t.grid.on_map(e.position) && t.grid.content(e.position).urban)
    &&& e.org_ratio < 0x3ecc_cccdu32 || friends(t, |o: BattalionUnit| hex_distance(o.position, e.position) == 1) >= 3 * (
    1 + helpers(t.enemy, e))
}

/// The battalion is under orders and the enemy fights next to it.
pub open spec fn in_the_way(t: TurnView, u: BattalionUnit, e: BattalionUnit) -> bool {
    t.order is Some && in_the_fight(e) && hex_distance(u.position, e.position) == 1
}

proof fn lemma_terms(t: TurnView, u: BattalionUnit, e: BattalionUnit)
    ensures
        permitted(t, e) <==> card_lets(t, e),
        odds_acceptable(t, u, e.position) <==> fair_odds(t, u, e.position),
        stormed(t, e) <==> overrun(t, e),
        fights_through(t, u, e) <==> in_the_way(t, u, e),
        in_sight(t, e) <==> exists|j: int| 0 <= j < t.enemy.len() && (#[trigger] t.enemy[j]).id == e.id,
{
    law_support_is_by_fighting_neighbours(t.enemy, e);
    let h = e.position;
    let foe = |x: BattalionUnit| in_the_fight(x) && hex_distance(x.position, h) <= 1;
    assert(fighting_round(h) =~= foe);
    law_matches_keep_their_order(t.enemy, foe);
    lemma_friends(
        t,
        backing(u.id, h),
        |o: BattalionUnit| in_the_fight(o) && o.id != u.id && hex_distance(o.position, h) <= 1,
    );
    lemma_friends(t, next_to(h), |o: BattalionUnit| hex_distance(o.position, e.position) == 1);
}

/// An enemy in sight is prey exactly if it is next to the battalion, fights, is in
/// rout or has lost its organisation without being gone, the card lets it be struck
/// or it is in the way of an order, and the odds are fair or do not count, as they do
/// not for one in rout, overrun or in the way. Whether the trade is worth it is
/// asked only where it counts: not for one in rout, overrun or in the way, nor under
/// the ambush, the city and the river defence.
pub proof fn law_who_is_prey(t: TurnView, b: &Book, who: int, foe: int)
    ensures
        ({
            let u = t.own[who];
            let e = t.enemy[foe];
            let rout = e.state == UnitState::Retreating;
            let open = (in_the_fight(e) || rout || (e.org == 0 && e.state != UnitState::Eliminated)) && hex_distance(
                u.position,
                e.position,
            ) == 1;
            let let_go = card_lets(t, e) || in_the_way(t, u, e);
            let good = rout || fair_odds(t, u, e.position) || overrun(t, e) || in_the_way(t, u, e);
            let sure = rout || overrun(t, e) || in_the_way(t, u, e) || t.tactic == CombatTactic::Ambush || t.tactic
                == CombatTactic::UrbanDefense || t.tactic == CombatTactic::RiverDefense;
            &&& !(open && let_go && good) ==> is_prey(t, b, who, foe) == Ok::<bool, Query>(false)
            &&& open && let_go && good && sure ==> is_prey(t, b, who, foe) == Ok::<bool, Query>(true)
            &&& open && let_go && good && !sure ==> is_prey(t, b, who, foe) == truth(
                b,
                Query::Trade { who: who as usize, foe: foe as usize },
            )
        }),
{
    lemma_terms(t, t.own[who], t.enemy[foe]);
}

/// The battalion is one of the first `n` enemies in sight and prey.
pub open spec fn one_of_the_prey(t: TurnView, b: &Book, who: int, n: int, e: BattalionUnit) -> bool {
    exists|foe: int| 0 <= foe < n && #[trigger] is_prey(t, b, who, foe) == Ok::<bool, Query>(true) && e == t.enemy[foe]
}

#[verifier::rlimit(40)]
proof fn lemma_prey_upto(t: TurnView, b: &Book, who: int, n: nat)
    requires
        n <= t.enemy.len(),
    ensures
        prey_upto(t, b, who, n) matches Ok(s) ==> {
            &&& forall|foe: int|
                0 <= foe < n && #[trigger] is_prey(t, b, who, foe) == Ok::<bool, Query>(true) ==> s.contains(t.enemy[foe])
            &&& forall|k: int|
                0 <= k < s.len() ==> one_of_the_prey(t, b, who, n as int, #[trigger] s[k])
            &&& forall|foe: int| 0 <= foe < n ==> (#[trigger] is_prey(t, b, who, foe)) is Ok
        },
    decreases n,
{
    if n > 0 {
        lemma_prey_upto(t, b, who, (n - 1) as nat);
        if let Ok(rest) = prey_upto(t, b, who, (n - 1) as nat) {
            if let Ok(s) = prey_upto(t, b, who, n) {
                assert forall|foe: int| 0 <= foe < n && #[trigger] is_prey(t, b, who, foe) == Ok::<bool, Query>(
                    true,
                ) implies s.contains(t.enemy[foe]) by {
                    if foe < n - 1 {
                        assert(rest.contains(t.enemy[foe]));
                        let k = choose|k: int| 0 <= k < rest.len() && rest[k] == t.enemy[foe];
                        assert(s[k] == t.enemy[foe]);
                    } else {
                        assert(s[s.len() - 1] == t.enemy[foe]);
                    }
                }
                assert forall|k: int| 0 <= k < s.len() implies one_of_the_prey(t, b, who, n as int, #[trigger] s[k]) by {
                    if k < rest.len() {
                        assert(s[k] == rest[k]);
                        let foe = choose|foe: int|
                            0 <= foe < n - 1 && #[trigger] is_prey(t, b, who, foe) == Ok::<bool, Query>(true) && rest[k]
                                == t.enemy[foe];
                        assert(is_prey(t, b, who, foe) == Ok::<bool, Query>(true));
                    } else {
                        assert(is_prey(t, b, who, n - 1) == Ok::<bool, Query>(true));
                    }
                }
            }
        }
    }
}

/// Enemy `j` of those that are known to stand there is stormed without sight of it:
/// none in sight has its id, it is next to the battalion, fights or has lost its
/// organisation without being gone, and is overrun.
pub open spec fn stormed_blind(t: TurnView, who: int, j: int) -> bool {
    let e = t.physical_foes[j];
    &&& forall|k: int| 0 <= k < t.enemy.len() ==> (#[trigger] t.enemy[k]).id != e.id
    &&& hex_distance(t.own[who].position, e.position) == 1
    &&& in_the_fight(e) || (e.org == 0 && e.state != UnitState::Eliminated)
    &&& overrun(t, e)
}

proof fn lemma_blind(t: TurnView, who: int, j: int)
    ensures
        blind_prey(t, t.own[who])(t.physical_foes[j]) <==> stormed_blind(t, who, j),
{
    lemma_terms(t, t.own[who], t.physical_foes[j]);
}

/// All prey is the prey in sight and that stormed blind, and nothing else.
#[verifier::rlimit(40)]
pub proof fn law_all_prey(t: TurnView, b: &Book, who: int, j: int, k: int)
    ensures
        all_prey(t, b, who) matches Ok(s) ==> {
            &&& 0 <= j < t.enemy.len() && is_prey(t, b, who, j) == Ok::<bool, Query>(true) ==> s.contains(t.enemy[j])
            &&& 0 <= j < t.physical_foes.len() && stormed_blind(t, who, j) ==> s.contains(t.physical_foes[j])
            &&& 0 <= k < s.len() ==> one_of_the_prey(t, b, who, t.enemy.len() as int, s[k]) || exists|i: int|
                0 <= i < t.physical_foes.len() && #[trigger] stormed_blind(t, who, i) && s[k] == t.physical_foes[i]
        },
{
    lemma_prey_upto(t, b, who, t.enemy.len());
    let ok = blind_prey(t, t.own[who]);
    law_those_where(t.physical_foes, ok);
    let blind = those_where(t.physical_foes, ok);
    if let Ok(seen) = prey_upto(t, b, who, t.enemy.len()) {
        let s = seen + blind;
        if 0 <= j < t.enemy.len() && is_prey(t, b, who, j) == Ok::<bool, Query>(true) {
            let i = choose|i: int| 0 <= i < seen.len() && seen[i] == t.enemy[j];
            assert(s[i] == t.enemy[j]);
        }
        if 0 <= j < t.physical_foes.len() && stormed_blind(t, who, j) {
            lemma_blind(t, who, j);
            assert(t.physical_foes.contains(t.physical_foes[j]));
            assert(blind.contains(t.physical_foes[j]));
            let i = choose|i: int| 0 <= i < blind.len() && blind[i] == t.physical_foes[j];
            assert(s[seen.len() + i] == t.physical_foes[j]);
        }
        if 0 <= k < s.len() {
            if k < seen.len() {
                assert(s[k] == seen[k]);
            } else {
                let e = blind[k - seen.len()];
                assert(blind.contains(e));
                let i = choose|i: int| 0 <= i < t.physical_foes.len() && t.physical_foes[i] == e;
                lemma_blind(t, who, i);
                assert(stormed_blind(t, who, i));
            }
        }
    }
}

/// How many of the side could join an assault on a battalion: those that fight, can
/// assault and stand next to it.
pub open spec fn joiners(t: TurnView, e: BattalionUnit) -> nat {
    friends(t, |o: BattalionUnit| in_the_fight(o) && o.can_assault && hex_distance(o.position, e.position) == 1)
}

/// The organisation that counts of prey: none of one in rout.
pub open spec fn org_left(e: BattalionUnit) -> int {
    if e.state == UnitState::Retreating {
        0
    } else {
        e.org_cents as int
    }
}

/// One prey is better than another: for raiders and an elastic defence the one with
/// fewer helpers, under any other card the one that more can join against; then the
/// one with less organisation left, then the one with less strength.
pub open spec fn better_prey(t: TurnView, e: BattalionUnit, than: BattalionUnit) -> bool {
    let alone = t.tactic == CombatTactic::GuerrillaTactics || t.tactic == CombatTactic::ElasticDefense;
    let first = if alone {
        helpers(t.enemy, e) - helpers(t.enemy, than)
    } else {
        joiners(t, than) - joiners(t, e)
    };
    ||| first < 0
    ||| first == 0 && org_left(e) < org_left(than)
    ||| first == 0 && org_left(e) == org_left(than) && e.strength_cents < than.strength_cents
}

proof fn lemma_better(t: TurnView, e: BattalionUnit, than: BattalionUnit)
    requires
        t.enemy.len() <= usize::MAX,
        t.own.len() + t.passive.len() <= usize::MAX,
    ensures
        crate::pick::before(target_key(t, e), target_key(t, than)) <==> better_prey(t, e, than),
{
    law_support_is_by_fighting_neighbours(t.enemy, e);
    law_support_is_by_fighting_neighbours(t.enemy, than);
    law_those_where(t.enemy, crate::turn::supports(e));
    law_those_where(t.enemy, crate::turn::supports(than));
    law_those_where(t.own, joining(e.position));
    law_those_where(t.passive, joining(e.position));
    law_those_where(t.own, joining(than.position));
    law_those_where(t.passive, joining(than.position));
    lemma_friends(
        t,
        joining(e.position),
        |o: BattalionUnit| in_the_fight(o) && o.can_assault && hex_distance(o.position, e.position) == 1,
    );
    lemma_friends(
        t,
        joining(than.position),
        |o: BattalionUnit| in_the_fight(o) && o.can_assault && hex_distance(o.position, than.position) == 1,
    );
}

/// The prey that is chosen is prey than which none is better, unless a hex is to be
/// seized and some prey stands on it or next to it: then it is the first such. Where
/// there is prey, some is chosen as soon as the draw is told.
#[verifier::rlimit(40)]
#[verifier::spinoff_prover]
pub proof fn law_the_best_prey_is_chosen(t: TurnView, b: &Book, who: int, prey: Seq<BattalionUnit>, k: int) -> (i: int)
    requires
        t.enemy.len() <= usize::MAX,
        t.own.len() + t.passive.len() <= usize::MAX,
        0 <= k < prey.len(),
    ensures
        chosen_prey(t, b, who, prey) matches Ok(found) ==> {
            &&& 0 <= i < prey.len() && found == Some(prey[i])
            &&& match t.order {
                Some(DivOrderTarget::Seize { hex }) => {
                    &&& hex_distance(prey[k].position, hex) <= 1 ==> hex_distance(prey[i].position, hex) <= 1 && i <= k
                    &&& hex_distance(prey[i].position, hex) > 1 ==> !better_prey(t, prey[k], prey[i])
                },
                _ => !better_prey(t, prey[k], prey[i]),
            }
        },
{
    let keys = target_keys(t, prey);
    law_least(keys);
    assert(keys[k] is Some);
    let best = least(keys)->0;
    let ok = as_good_as(t, target_key(t, prey[best]));
    law_those_where(prey, ok);
    let tied = those_where(prey, ok);
    let hex = match t.order {
        Some(DivOrderTarget::Seize { hex }) => hex,
        _ => prey[k].position,
    };
    law_first_where(prey, by_hex(hex));
    assert forall|x: int| 0 <= x < prey.len() implies by_hex(hex)(#[trigger] prey[x]) == (hex_distance(
        prey[x].position,
        hex,
    ) <= 1) by {
        crate::hex::law_distance_is_a_metric(prey[x].position, hex, hex);
    }
    match chosen_prey(t, b, who, prey) {
        Ok(Some(e)) => {
            if t.order matches Some(DivOrderTarget::Seize { hex: _ }) && first_where(prey, by_hex(hex)) is Some {
                first_where(prey, by_hex(hex))->0
            } else {
                let n = number(b, Query::Draw { who: who as usize, below: tied.len() as usize })->Ok_0;
                assert(tied.contains(tied[n as int]));
                let i = choose|i: int| 0 <= i < prey.len() && prey[i] == e;
                lemma_better(t, prey[k], prey[i]);
                assert(!crate::pick::before(keys[k]->0, keys[best]->0));
                assert(!by_hex(hex)(prey[k]) || !(t.order matches Some(DivOrderTarget::Seize { hex: _ })));
                i
            }
        },
        _ => 0,
    }
}

/// The enemy that the division is ordered to engage is struck first, whenever it is
/// in sight and next to the battalion and either in rout, or let by the card or in
/// the way while the odds are fair or do not count. Whoever cannot assault assaults
/// nobody; whoever can assaults the prey that is chosen, and nobody where there is
/// none.
#[verifier::rlimit(40)]
pub proof fn law_the_quarry_comes_first(t: TurnView, b: &Book, who: int, q: int)
    ensures
        !t.own[who].can_assault ==> assault(t, b, who) == Ok::<Option<Act>, Query>(None),
        t.own[who].can_assault && (t.order matches Some(DivOrderTarget::Engage { unit, last_pos: _ })
            && crate::geometry::bears(t.enemy, unit, q) && {
            let e = t.enemy[q];
            let rout = e.state == UnitState::Retreating;
            &&& hex_distance(t.own[who].position, e.position) == 1
            &&& rout || card_lets(t, e) || in_the_way(t, t.own[who], e)
            &&& rout || fair_odds(t, t.own[who], e.position) || overrun(t, e) || in_the_way(t, t.own[who], e)
        }) ==> assault(t, b, who) == Ok::<Option<Act>, Query>(
            Some(Act::Assault { attacker_id: t.own[who].id, target_id: t.enemy[q].id }),
        ),
        t.own[who].can_assault && !(t.order matches Some(DivOrderTarget::Engage { unit: _, last_pos: _ })) ==> (all_prey(
            t,
            b,
            who,
        ) matches Ok(prey) ==> {
            &&& prey.len() == 0 ==> assault(t, b, who) == Ok::<Option<Act>, Query>(None)
            &&& chosen_prey(t, b, who, prey) matches Ok(Some(e)) ==> assault(t, b, who) == Ok::<Option<Act>, Query>(
                Some(Act::Assault { attacker_id: t.own[who].id, target_id: e.id }),
            )
        }),
{
    if let Some(DivOrderTarget::Engage { unit, last_pos }) = t.order {
        law_an_id_stands_for_its_first_bearer(t.enemy, unit, q);
        if crate::geometry::bears(t.enemy, unit, q) {
            lemma_terms(t, t.own[who], t.enemy[q]);
        }
    } else {
        assert(quarry(t) is None);
    }
    if let Ok(prey) = all_prey(t, b, who) {
        if prey.len() == 0 {
            law_least(target_keys(t, prey));
            if let Some(DivOrderTarget::Seize { hex }) = t.order {
                law_first_where(prey, by_hex(hex));
            }
        }
    }
}

/// Whoever joins an assault is another battalion that fights, has not acted, can
/// assault and stands next to the hex.
pub proof fn law_who_joins_an_assault(u: BattalionUnit, o: BattalionUnit, h: HexCoord)
    ensures
        joining_with(u, h)(o) <==> o.id != u.id && in_the_fight(o) && !o.acted && o.can_assault && hex_distance(
            h,
            o.position,
        ) == 1,
{
    crate::hex::law_distance_is_a_metric(h, o.position, h);
}

/// Enemy `j` can be fired at by battalion `who`: no nearer than its least and no
/// farther than its greatest range, and fighting or, but for guns that lay directly,
/// in rout.
pub open spec fn can_be_fired_at(t: TurnView, who: int, j: int) -> bool {
    let u = t.own[who];
    let e = t.enemy[j];
    let d = hex_distance(u.position, e.position);
    &&& u.min_attack_range <= d && d <= u.attack_range
    &&& in_the_fight(e) || (e.state == UnitState::Retreating && !u.kind.direct_gun)
}

/// No salvo is fired where a friend fights on the hex or next to it.
pub open spec fn spares_friends(t: TurnView, who: int, h: HexCoord) -> bool {
    t.own[who].kind.rocket ==> {
        &&& forall|i: int|
            0 <= i < t.own.len() && in_the_fight(#[trigger] t.own[i]) ==> hex_distance(t.own[i].position, h) > 1
        &&& forall|i: int|
            0 <= i < t.passive.len() && in_the_fight(#[trigger] t.passive[i]) ==> hex_distance(t.passive[i].position, h) > 1
    }
}

proof fn lemma_spares(t: TurnView, who: int, h: HexCoord)
    ensures
        safe_for(t, who, h) <==> spares_friends(t, who, h),
{
    let ok = fighting_round(h);
    crate::pick::law_count_is_positive(t.own, ok);
    crate::pick::law_count_is_positive(t.passive, ok);
    if !friends_in_blast(t, h) {
        assert forall|i: int| 0 <= i < t.own.len() && in_the_fight(#[trigger] t.own[i]) implies hex_distance(
            t.own[i].position,
            h,
        ) > 1 by {
            assert(!ok(t.own[i]));
        }
        assert forall|i: int| 0 <= i < t.passive.len() && in_the_fight(#[trigger] t.passive[i]) implies hex_distance(
            t.passive[i].position,
            h,
        ) > 1 by {
            assert(!ok(t.passive[i]));
        }
    } else {
        if count_where(t.own, ok) > 0 {
            let i = choose|i: int| 0 <= i < t.own.len() && ok(#[trigger] t.own[i]);
            assert(in_the_fight(t.own[i]));
        } else {
            let i = choose|i: int| 0 <= i < t.passive.len() && ok(#[trigger] t.passive[i]);
            assert(in_the_fight(t.passive[i]));
        }
    }
}

/// The enemies in reach are exactly those that can be fired at, and the safe ones of
/// them exactly those where a salvo spares the friends.
pub proof fn law_the_enemies_in_reach(t: TurnView, who: int, j: int)
    requires
        0 <= j < t.enemy.len() <= usize::MAX,
    ensures
        reach_of(t, who).contains(j as usize) <==> can_be_fired_at(t, who, j),
        those_where(reach_of(t, who), safe_target(t, who)).contains(j as usize) <==> can_be_fired_at(t, who, j)
            && spares_friends(t, who, t.enemy[j].position),
{
    let all = indices(t.enemy.len());
    law_those_where(all, in_reach(t, who));
    law_those_where(reach_of(t, who), safe_target(t, who));
    lemma_spares(t, who, t.enemy[j].position);
    assert(all[j] == j as usize);
    assert(all.contains(j as usize));
}

/// An enemy is weaker than another: it has less organisation, or as much and less
/// strength.
pub open spec fn weaker(e: BattalionUnit, than: BattalionUnit) -> bool {
    e.org < than.org || (e.org == than.org && e.strength < than.strength)
}

proof fn lemma_weaker(e: BattalionUnit, than: BattalionUnit)
    ensures
        weakness(e) < weakness(than) <==> weaker(e, than),
        weakness(e) == weakness(than) <==> e.org == than.org && e.strength == than.strength,
{
}

/// The weakest of some targets is one than which none is weaker.
pub proof fn law_the_weakest_is_weakest(t: TurnView, foes: Seq<usize>, k: int) -> (i: int)
    requires
        0 <= k < foes.len(),
    ensures
        0 <= i < foes.len(),
        weakest(t, foes) == Some(t.enemy[foes[i] as int].position),
        !weaker(t.enemy[foes[k] as int], t.enemy[foes[i] as int]),
        !weaker(t.enemy[foes[i] as int], t.enemy[foes[k] as int]) ==> t.enemy[foes[i] as int].id <= t.enemy[foes[k] as int].id,
{
    let keys = weakness_keys(t, foes);
    law_least(keys);
    assert(keys[k] is Some);
    let i = least(keys)->0;
    lemma_weaker(t.enemy[foes[k] as int], t.enemy[foes[i] as int]);
    lemma_weaker(t.enemy[foes[i] as int], t.enemy[foes[k] as int]);
    i
}

/// A battery under orders fires at the enemy that is to be engaged, if it can be
/// fired at, and at the weakest of those on or next to the hex that is to be seized;
/// not where a salvo would strike friends.
#[verifier::rlimit(40)]
#[verifier::spinoff_prover]
pub proof fn law_batteries_fire_as_ordered(t: TurnView, b: &Book, who: int, j: int) -> (i: int)
    requires
        0 <= j < t.enemy.len() <= usize::MAX,
        can_be_fired_at(t, who, j),
    ensures
        t.order matches Some(DivOrderTarget::Engage { unit, last_pos: _ }) ==> t.enemy[j].id == unit && (forall|k: int|
            0 <= k < j ==> !((#[trigger] t.enemy[k]).id == unit && can_be_fired_at(t, who, k))) && spares_friends(
            t,
            who,
            t.enemy[j].position,
        ) ==> fire_target(t, b, who) == Ok::<Option<HexCoord>, Query>(Some(t.enemy[j].position)),
        t.order matches Some(DivOrderTarget::Seize { hex }) ==> hex_distance(t.enemy[j].position, hex) <= 1 ==> {
            &&& 0 <= i < t.enemy.len() && can_be_fired_at(t, who, i) && hex_distance(t.enemy[i].position, hex) <= 1
            &&& !weaker(t.enemy[j], t.enemy[i])
            &&& spares_friends(t, who, t.enemy[i].position) ==> fire_target(t, b, who) == Ok::<Option<HexCoord>, Query>(
                Some(t.enemy[i].position),
            )
        },
{
    let all = indices(t.enemy.len());
    let ok = in_reach(t, who);
    law_those_where(all, ok);
    law_the_enemies_in_reach(t, who, j);
    lemma_spares(t, who, t.enemy[j].position);
    let reach = reach_of(t, who);
    let y = choose|y: int| 0 <= y < reach.len() && reach[y] == j as usize;
    crate::firing::lemma_filter_of_indices(t.enemy.len(), ok);
    match t.order {
        Some(DivOrderTarget::Engage { unit, last_pos }) => {
            law_first_where(reach, with_id(t, unit));
            if t.enemy[j].id == unit && (forall|k: int|
                0 <= k < j ==> !((#[trigger] t.enemy[k]).id == unit && can_be_fired_at(t, who, k))) {
                assert(with_id(t, unit)(reach[y]));
                let x = first_where(reach, with_id(t, unit))->0;
                assert(x <= y);
                if x < y {
                    assert(reach[x] < reach[y]);
                    assert(reach.contains(reach[x]));
                    let z = choose|z: int| 0 <= z < all.len() && all[z] == reach[x];
                    law_the_enemies_in_reach(t, who, z);
                    assert(t.enemy[z].id == unit);
                }
                assert(x == y);
            }
            0
        },
        Some(DivOrderTarget::Seize { hex }) => {
            if hex_distance(t.enemy[j].position, hex) <= 1 {
                let near = by_point(t, hex);
                law_those_where(reach, near);
                let foes = those_where(reach, near);
                crate::hex::law_distance_is_a_metric(t.enemy[j].position, hex, hex);
                assert(near(j as usize));
                assert(foes.contains(j as usize));
                let k = choose|k: int| 0 <= k < foes.len() && foes[k] == j as usize;
                let i = law_the_weakest_is_weakest(t, foes, k);
                assert(foes.contains(foes[i]));
                assert(reach.contains(foes[i]));
                let z = choose|z: int| 0 <= z < all.len() && all[z] == foes[i];
                law_the_enemies_in_reach(t, who, z);
                lemma_spares(t, who, t.enemy[z].position);
                crate::hex::law_distance_is_a_metric(t.enemy[z].position, hex, hex);
                z
            } else {
                0
            }
        },
        None => 0,
    }
}

/// Where nobody that it is safe to fire at is in reach, a battery without orders has
/// no target; where somebody is, it has one as soon as all is told.
pub proof fn law_batteries_fire_where_they_can(t: TurnView, b: &Book, who: int, j: int)
    requires
        t.enemy.len() <= usize::MAX,
        t.order is None,
    ensures
        (forall|k: int|
            0 <= k < t.enemy.len() && #[trigger] can_be_fired_at(t, who, k) ==> !spares_friends(t, who, t.enemy[k].position))
            ==> fire_target(t, b, who) == Ok::<Option<HexCoord>, Query>(None),
        0 <= j < t.enemy.len() && can_be_fired_at(t, who, j) && spares_friends(t, who, t.enemy[j].position) ==> (
        fire_target(t, b, who) matches Ok(found) ==> found is Some),
{
    let all = indices(t.enemy.len());
    let safe = those_where(reach_of(t, who), safe_target(t, who));
    law_those_where(all, in_reach(t, who));
    law_those_where(reach_of(t, who), safe_target(t, who));
    if safe.len() > 0 {
        assert(safe.contains(safe[0]));
        assert(reach_of(t, who).contains(safe[0]));
        let z = choose|z: int| 0 <= z < all.len() && all[z] == safe[0];
        law_the_enemies_in_reach(t, who, z);
        assert(can_be_fired_at(t, who, z));
        let targets = preparation(t, safe);
        law_those_where(safe, precise_target(t));
        assert(targets.len() > 0);
        let i = law_the_weakest_is_weakest(t, targets, 0);
    }
    if 0 <= j < t.enemy.len() && can_be_fired_at(t, who, j) && spares_friends(t, who, t.enemy[j].position) {
        law_the_enemies_in_reach(t, who, j);
        assert(safe.contains(j as usize));
    }
}

/// Under the fire plan and the two assault cards the batteries prepare: they fire at
/// an enemy whose hex is held, where there is one. Under the assault cards it is one
/// than which no volley of the assault on another could be greater, where any volley
/// can form; otherwise one than which none is weaker. Every other card looks for the
/// best mission.
#[verifier::rlimit(40)]
#[verifier::spinoff_prover]
pub proof fn law_preparations_soften_the_assault(t: TurnView, b: &Book, who: int, j: int) -> (i: int)
    requires
        0 <= j < t.enemy.len() <= usize::MAX,
        t.order is None,
        can_be_fired_at(t, who, j) && spares_friends(t, who, t.enemy[j].position),
        t.tactic == CombatTactic::OverwhelmingFire || t.tactic == CombatTactic::Assault || t.tactic
            == CombatTactic::RiverAssault,
    ensures
        fire_target(t, b, who) matches Ok(found) ==> {
            &&& 0 <= i < t.enemy.len() && can_be_fired_at(t, who, i) && spares_friends(t, who, t.enemy[i].position)
            &&& found == Some(t.enemy[i].position)
            &&& manned(t.enemy, t.enemy[j].position) ==> manned(t.enemy, t.enemy[i].position)
            &&& manned(t.enemy, t.enemy[j].position) == manned(t.enemy, t.enemy[i].position) ==> {
                &&& t.tactic == CombatTactic::OverwhelmingFire ==> !weaker(t.enemy[j], t.enemy[i])
                &&& t.tactic != CombatTactic::OverwhelmingFire ==> (number(b, Query::Volley { foe: j as usize }) matches Ok(
                    n,
                ) && (number(b, Query::Volley { foe: i as usize }) matches Ok(m) && (n > 0 ==> m >= n) && (m <= 0 || m == n
                    ==> !weaker(t.enemy[j], t.enemy[i]))))
            }
        },
{
    let all = indices(t.enemy.len());
    let reach = reach_of(t, who);
    let safe = those_where(reach, safe_target(t, who));
    law_those_where(all, in_reach(t, who));
    law_those_where(reach, safe_target(t, who));
    law_the_enemies_in_reach(t, who, j);
    let precise = those_where(safe, precise_target(t));
    law_those_where(safe, precise_target(t));
    let targets = preparation(t, safe);
    crate::bearing::law_whoever_fights_holds_its_hex(t.enemy, 0, t.enemy[j].position);
    assert(safe.contains(j as usize));
    assert(precise_target(t)(j as usize) == manned(t.enemy, t.enemy[j].position));
    if manned(t.enemy, t.enemy[j].position) {
        assert(precise.contains(j as usize));
    }
    assert(targets.len() > 0) by {
        if precise.len() == 0 {
            assert(safe.len() > 0);
        }
    }
    assert forall|x: int| 0 <= x < targets.len() implies {
        &&& (#[trigger] targets[x]) < t.enemy.len()
        &&& can_be_fired_at(t, who, targets[x] as int)
        &&& spares_friends(t, who, t.enemy[targets[x] as int].position)
        &&& manned(t.enemy, t.enemy[targets[x] as int].position) == (precise.len() > 0)
    } by {
        assert(targets.contains(targets[x]));
        if precise.len() > 0 {
            assert(precise.contains(targets[x]));
        }
        assert(safe.contains(targets[x]));
        assert(reach.contains(targets[x]));
        let z = choose|z: int| 0 <= z < all.len() && all[z] == targets[x];
        law_the_enemies_in_reach(t, who, z);
        crate::bearing::law_whoever_fights_holds_its_hex(t.enemy, 0, t.enemy[z].position);
        if precise.len() == 0 && precise_target(t)(targets[x]) {
            assert(precise.contains(targets[x]));
        }
    }
    let k = if manned(t.enemy, t.enemy[j].position) == (precise.len() > 0) {
        assert(targets.contains(j as usize));
        choose|k: int| 0 <= k < targets.len() && targets[k] == j as usize
    } else {
        0
    };
    let w = law_the_weakest_is_weakest(t, targets, k);
    if t.tactic == CombatTactic::OverwhelmingFire {
        targets[w] as int
    } else {
        let f = volley_key(t, b);
        lemma_gathered_len(targets, f);
        match gathered(targets, f) {
            Ok(keys) => {
                law_least(keys);
                assert(f(targets[k]) == Ok::<Option<Key>, Query>(keys[k]));
                let l = least(keys)->0;
                assert(f(targets[l]) == Ok::<Option<Key>, Query>(keys[l]));
                assert(!crate::pick::before(keys[k]->0, keys[l]->0));
                lemma_weaker(t.enemy[targets[k] as int], t.enemy[targets[l] as int]);
                if keys[l]->0.a < 0 {
                    targets[l] as int
                } else {
                    assert(f(targets[w]) == Ok::<Option<Key>, Query>(keys[w]));
                    assert(!crate::pick::before(keys[w]->0, keys[l]->0));
                    targets[w] as int
                }
            },
            Err(_) => 0,
        }
    }
}

/// A mission at enemy `j` has its full strength: the hex is held, or the battery lays
/// directly or fires rockets.
pub open spec fn full_strength(t: TurnView, who: int, j: int) -> bool {
    t.own[who].kind.direct_gun || t.own[who].kind.rocket || manned(t.enemy, t.enemy[j].position)
}

/// The mission at enemy `e` is as good as the best.
spec fn as_good_a_mission(b: &Book, who: int, foes: Seq<usize>, keys: Seq<Key>, best: int, e: usize) -> bool {
    exists|p: int|
        0 <= p < foes.len() && e == #[trigger] foes[p] && keys[p].a == keys[best].a && (keys[p].b == keys[best].b || truth(
            b,
            Query::Even { who: who as usize, foe: foes[p], best: foes[best], full: keys[p].a == 0 },
        ) == Ok::<bool, Query>(true))
}

#[verifier::rlimit(40)]
proof fn lemma_even(b: &Book, who: int, foes: Seq<usize>, keys: Seq<Key>, order: Seq<usize>, n: nat)
    requires
        n <= order.len(),
        order.len() == foes.len() == keys.len(),
        forall|i: int| 0 <= i < order.len() ==> (#[trigger] order[i]) < order.len(),
    ensures
        even_upto(b, who, foes, keys, order, n) matches Ok(s) ==> forall|x: int|
            0 <= x < s.len() ==> as_good_a_mission(b, who, foes, keys, order[0] as int, #[trigger] s[x]),
    decreases n,
{
    if n > 0 {
        lemma_even(b, who, foes, keys, order, (n - 1) as nat);
        if let Ok(rest) = even_upto(b, who, foes, keys, order, (n - 1) as nat) {
            if let Ok(s) = even_upto(b, who, foes, keys, order, n) {
                assert forall|x: int| 0 <= x < s.len() implies as_good_a_mission(
                    b,
                    who,
                    foes,
                    keys,
                    order[0] as int,
                    #[trigger] s[x],
                ) by {
                    if x < rest.len() {
                        assert(s[x] == rest[x]);
                    } else {
                        let p = order[n - 1] as int;
                        assert(s[x] == foes[p]);
                    }
                }
            }
        }
    }
}

/// The best mission is one with full strength where any is, and no other of its kind
/// is expected to do more damage, unless the two are told to be as good as the best
/// one another.
#[verifier::rlimit(40)]
#[verifier::spinoff_prover]
pub proof fn law_the_best_mission_is_fired(t: TurnView, b: &Book, who: int, foes: Seq<usize>, k: int) -> (i: (int, int))
    requires
        0 <= k < foes.len() <= usize::MAX,
    ensures
        best_mission(t, b, who, foes) matches Ok(found) ==> {
            let (p, best) = i;
            let full = |x: int| full_strength(t, who, foes[x] as int);
            let worth = |x: int| number(b, Query::Barrage { who: who as usize, foe: foes[x], full: full(x) });
            &&& 0 <= p < foes.len() && 0 <= best < foes.len()
            &&& found == Some(t.enemy[foes[p] as int].position)
            &&& full(p) == full(best) && (full(k) ==> full(best))
            &&& worth(p) is Ok && worth(best) is Ok && worth(k) is Ok
            &&& full(k) == full(best) ==> worth(k)->Ok_0 <= worth(best)->Ok_0
            &&& worth(p)->Ok_0 == worth(best)->Ok_0 || truth(
                b,
                Query::Even { who: who as usize, foe: foes[p], best: foes[best], full: full(p) },
            ) == Ok::<bool, Query>(true)
        },
{
    let f = barrage_key(t, b, who);
    lemma_gathered_len(foes, f);
    match best_mission(t, b, who, foes) {
        Ok(found) => {
            let keys = gathered(foes, f)->Ok_0;
            let ks = plain(keys);
            let order = ranked(ks);
            assert forall|x: int| 0 <= x < foes.len() implies (#[trigger] keys[x]) is Some && f(foes[x]) == Ok::<
                Option<Key>,
                Query,
            >(keys[x]) && at_full(t, who, foes[x] as int) == full_strength(t, who, foes[x] as int) by {
                assert(f(foes[x]) == Ok::<Option<Key>, Query>(keys[x]));
                crate::bearing::law_whoever_fights_holds_its_hex(t.enemy, 0, t.enemy[foes[x] as int].position);
            }
            law_ranking(ks);
            lemma_even(b, who, foes, ks, order, foes.len());
            let tied = even_upto(b, who, foes, ks, order, foes.len())->Ok_0;
            let n = number(b, Query::Draw { who: who as usize, below: tied.len() as usize })->Ok_0;
            let best = order[0] as int;
            assert(as_good_a_mission(b, who, foes, ks, best, tied[n as int]));
            let p = choose|p: int|
                0 <= p < foes.len() && tied[n as int] == #[trigger] foes[p] && ks[p].a == ks[best].a && (ks[p].b == ks[best].b
                    || truth(
                    b,
                    Query::Even { who: who as usize, foe: foes[p], best: foes[best], full: ks[p].a == 0 },
                ) == Ok::<bool, Query>(true));
            let y = crate::relief::lemma_ranked_holds(order, k);
            if y > 0 {
                assert(!crate::pick::before(ks[order[y] as int], ks[order[0] as int]));
            }
            assert(keys[p] is Some && keys[best] is Some && keys[k] is Some);
            (p, best)
        },
        Err(_) => (0, 0),
    }
}

/// Without orders every card but the fire plan and the two assault cards has its
/// batteries fire the best of the safe missions in reach.
pub proof fn law_other_cards_fire_the_best_mission(t: TurnView, b: &Book, who: int, j: int)
    requires
        0 <= j < t.enemy.len() <= usize::MAX,
        t.order is None,
        can_be_fired_at(t, who, j) && spares_friends(t, who, t.enemy[j].position),
        t.tactic != CombatTactic::OverwhelmingFire && t.tactic != CombatTactic::Assault && t.tactic
            != CombatTactic::RiverAssault,
    ensures
        fire_target(t, b, who) == best_mission(t, b, who, those_where(reach_of(t, who), safe_target(t, who))),
{
    law_the_enemies_in_reach(t, who, j);
}

/// The draw decides among the best prey: whichever of those that none is better than
/// stands at its number is chosen, unless a hex is to be seized.
#[verifier::rlimit(40)]
pub proof fn law_the_draw_decides_among_the_best_prey(t: TurnView, b: &Book, who: int, prey: Seq<BattalionUnit>, n: i64)
    requires
        t.enemy.len() <= usize::MAX,
        t.own.len() + t.passive.len() <= usize::MAX,
        prey.len() > 0,
        !(t.order matches Some(DivOrderTarget::Seize { hex: _ })),
    ensures
        ({
            let best = prey.filter(
                |e: BattalionUnit| forall|k: int| 0 <= k < prey.len() ==> !better_prey(t, #[trigger] prey[k], e),
            );
            let draw = Query::Draw { who: who as usize, below: best.len() as usize };
            number(b, draw) == Ok::<i64, Query>(n) && 0 <= n < best.len() ==> chosen_prey(t, b, who, prey) == Ok::<
                Option<BattalionUnit>,
                Query,
            >(Some(best[n as int]))
        }),
{
    let keys = target_keys(t, prey);
    law_least(keys);
    assert(keys[0] is Some);
    let i = least(keys)->0;
    let f = as_good_as(t, target_key(t, prey[i]));
    let g = |e: BattalionUnit| forall|k: int| 0 <= k < prey.len() ==> !better_prey(t, #[trigger] prey[k], e);
    law_matches_keep_their_order(prey, f);
    assert forall|k: int| 0 <= k < prey.len() implies f(prey[k]) == #[trigger] g(prey[k]) by {
        assert(!crate::pick::before(keys[k]->0, keys[i]->0));
        lemma_better(t, prey[k], prey[i]);
        lemma_better(t, prey[i], prey[k]);
        if f(prey[k]) {
            assert forall|j: int| 0 <= j < prey.len() implies !better_prey(t, #[trigger] prey[j], prey[k]) by {
                assert(!crate::pick::before(keys[j]->0, keys[i]->0));
                lemma_better(t, prey[j], prey[k]);
            }
        }
        if g(prey[k]) {
            assert(!better_prey(t, prey[i], prey[k]));
        }
    }
    lemma_filters_alike(prey, f, g);
}

proof fn lemma_filters_alike(s: Seq<BattalionUnit>, f: spec_fn(BattalionUnit) -> bool, g: spec_fn(BattalionUnit) -> bool)
    requires
        forall|k: int| 0 <= k < s.len() ==> f(#[trigger] s[k]) == g(s[k]),
    ensures
        s.filter(f) == s.filter(g),
    decreases s.len(),
{
    reveal(Seq::filter);
    if s.len() > 0 {
        let t = s.drop_last();
        assert forall|k: int| 0 <= k < t.len() implies f(#[trigger] t[k]) == g(t[k]) by {
            assert(t[k] == s[k]);
        }
        lemma_filters_alike(t, f, g);
        assert(s.last() == s[s.len() - 1]);
    }
}

proof fn lemma_all_even(b: &Book, who: int, foes: Seq<usize>, keys: Seq<Key>, order: Seq<usize>, n: nat, k: int)
    requires
        n <= order.len(),
        order.len() == foes.len() == keys.len(),
        0 <= k < n,
    ensures
        even_upto(b, who, foes, keys, order, n) matches Ok(s) ==> ({
            let p = order[k] as int;
            let best = order[0] as int;
            keys[p].a == keys[best].a && (keys[p].b == keys[best].b || truth(
                b,
                Query::Even { who: who as usize, foe: foes[p], best: foes[best], full: keys[p].a == 0 },
            ) == Ok::<bool, Query>(true)) ==> s.contains(foes[p])
        }),
    decreases n,
{
    let m = (n - 1) as nat;
    if let Ok(rest) = even_upto(b, who, foes, keys, order, m) {
        if let Ok(s) = even_upto(b, who, foes, keys, order, n) {
            if k < m {
                lemma_all_even(b, who, foes, keys, order, m, k);
                let x = foes[order[k] as int];
                if rest.contains(x) {
                    let i = choose|i: int| 0 <= i < rest.len() && rest[i] == x;
                    assert(s[i] == x);
                }
            } else if s.len() > rest.len() {
                assert(s[s.len() - 1] == foes[order[k] as int]);
            }
        }
    }
}

/// The draw decides among all missions that are as good as the best one, at the same
/// strength: each of them is fired for some number.
#[verifier::rlimit(40)]
#[verifier::spinoff_prover]
pub proof fn law_the_draw_decides_among_the_best_missions(t: TurnView, b: &Book, who: int, foes: Seq<usize>, p: int, best: int) -> (tied: Seq<usize>)
    requires
        0 <= p < foes.len() <= usize::MAX,
        0 <= best < foes.len(),
        forall|k: int| 0 <= k < foes.len() ==> ranks_no_better(t, b, who, #[trigger] foes[k], foes[best]),
        forall|k: int| 0 <= k < best ==> !ranks_no_better(t, b, who, foes[best], #[trigger] foes[k]),
    ensures
        best_mission(t, b, who, foes) matches Ok(found) ==> ({
            let full = |x: int| full_strength(t, who, foes[x] as int);
            let worth = |x: int| number(b, Query::Barrage { who: who as usize, foe: foes[x], full: full(x) });
            &&& number(b, Query::Draw { who: who as usize, below: tied.len() as usize }) matches Ok(n) && 0 <= n < tied.len()
                && found == Some(t.enemy[tied[n as int] as int].position)
            &&& full(p) == full(best) && (worth(p) == worth(best) || truth(
                b,
                Query::Even { who: who as usize, foe: foes[p], best: foes[best], full: full(p) },
            ) == Ok::<bool, Query>(true)) ==> tied.contains(foes[p])
        }),
{
    let f = barrage_key(t, b, who);
    lemma_gathered_len(foes, f);
    match best_mission(t, b, who, foes) {
        Ok(found) => {
            let keys = gathered(foes, f)->Ok_0;
            let ks = plain(keys);
            let order = ranked(ks);
            law_ranking(ks);
            assert forall|x: int| 0 <= x < foes.len() implies (#[trigger] keys[x]) is Some && f(foes[x]) == Ok::<
                Option<Key>,
                Query,
            >(keys[x]) && at_full(t, who, foes[x] as int) == full_strength(t, who, foes[x] as int) by {
                assert(f(foes[x]) == Ok::<Option<Key>, Query>(keys[x]));
                crate::bearing::law_whoever_fights_holds_its_hex(t.enemy, 0, t.enemy[foes[x] as int].position);
            }
            let first = order[0] as int;
            let y = crate::relief::lemma_ranked_holds(order, best);
            let z = crate::relief::lemma_ranked_holds(order, p);
            assert(keys[best] is Some && keys[first] is Some && keys[p] is Some);
            assert(ranks_no_better(t, b, who, foes[first], foes[best]));
            lemma_ranks(t, b, who, foes[first], foes[best]);
            lemma_ranks(t, b, who, foes[best], foes[first]);
            assert(first == best) by {
                if first != best {
                    assert(y > 0);
                    assert(!crate::pick::before(ks[best], ks[first]));
                    assert(!crate::pick::before(ks[first], ks[best]));
                    assert(first < best);
                    assert(!ranks_no_better(t, b, who, foes[best], foes[first]));
                }
            }
            lemma_all_even(b, who, foes, ks, order, foes.len(), z);
            even_upto(b, who, foes, ks, order, foes.len())->Ok_0
        },
        Err(_) => Seq::empty(),
    }
}

/// A mission ranks no better than another: not at full strength where that is not, not
/// with more damage expected, not at a weaker enemy, nor at one with a lesser id.
pub open spec fn ranks_no_better(t: TurnView, b: &Book, who: int, x: usize, y: usize) -> bool {
    let full = |j: usize| full_strength(t, who, j as int);
    let worth = |j: usize| number(b, Query::Barrage { who: who as usize, foe: j, full: full(j) });
    let e = t.enemy[x as int];
    let o = t.enemy[y as int];
    ||| full(y) && !full(x)
    ||| full(y) == full(x) && {
        ||| worth(y) is Err || worth(x) is Err
        ||| worth(y)->Ok_0 > worth(x)->Ok_0
        ||| worth(y)->Ok_0 == worth(x)->Ok_0 && (weaker(o, e) || (!weaker(e, o) && o.id <= e.id))
    }
}

proof fn lemma_ranks(t: TurnView, b: &Book, who: int, x: usize, y: usize)
    ensures
        barrage_key(t, b, who)(x) matches Ok(Some(k)) ==> (barrage_key(t, b, who)(y) matches Ok(Some(l)) ==> (
        ranks_no_better(t, b, who, x, y) <==> !crate::pick::before(k, l))),
{
    crate::bearing::law_whoever_fights_holds_its_hex(t.enemy, 0, t.enemy[x as int].position);
    crate::bearing::law_whoever_fights_holds_its_hex(t.enemy, 0, t.enemy[y as int].position);
    lemma_weaker(t.enemy[x as int], t.enemy[y as int]);
    lemma_weaker(t.enemy[y as int], t.enemy[x as int]);
}

/// Who may be assaulted under each card: nobody in a withdrawal, a fire plan or a delay;
/// in an elastic defence only one without a fighting neighbour of its side; in a
/// counterattack also one below half of its organisation; in a river defence one in a
/// ford; in an infiltration one in less than strong cover with at most one such
/// neighbour; and under every other card anybody.
pub proof fn law_whom_the_cards_let_be_struck(t: TurnView, e: BattalionUnit)
    ensures
        t.tactic == CombatTactic::TacticalWithdrawal || t.tactic == CombatTactic::OverwhelmingFire || t.tactic
            == CombatTactic::Delay ==> !permitted(t, e),
        t.tactic == CombatTactic::ElasticDefense ==> (permitted(t, e) <==> helpers(t.enemy, e) == 0),
        t.tactic == CombatTactic::Counterattack ==> (permitted(t, e) <==> helpers(t.enemy, e) == 0 || e.org_ratio
            < 0x3f00_0000u32),
        t.tactic == CombatTactic::RiverDefense ==> (permitted(t, e) <==> t.grid.on_map(e.position) && t.grid.content(
            e.position,
        ).river),
        t.tactic == CombatTactic::InfiltrationAssault && t.grid.on_map(e.position) ==> (permitted(t, e) <==> helpers(
            t.enemy,
            e,
        ) <= 1 && t.grid.content(e.position).cover < 0x3e99_999ai64),
        t.tactic == CombatTactic::Blitz || t.tactic == CombatTactic::MassCharge || t.tactic == CombatTactic::GuerrillaTactics
            || t.tactic == CombatTactic::Encirclement || t.tactic == CombatTactic::Default || t.tactic == CombatTactic::Ambush
            || t.tactic == CombatTactic::UrbanDefense || t.tactic == CombatTactic::Assault || t.tactic
            == CombatTactic::RiverAssault ==> permitted(t, e),
{
    lemma_terms(t, e, e);
}

/// Under a card that lets anybody be struck, an enemy that fights next to the
/// battalion outside a city, without an order, is prey exactly if the trade is worth
/// it and the enemies that fight there are fewer than three to each of the battalion
/// and its friends there.
pub proof fn law_three_to_one_is_refused(t: TurnView, b: &Book, who: int, foe: int)
    requires
        0 <= foe < t.enemy.len(),
        t.order is None,
        t.tactic == CombatTactic::Blitz || t.tactic == CombatTactic::Assault || t.tactic == CombatTactic::MassCharge,
        t.enemy[foe].state == UnitState::Active && t.enemy[foe].fit,
        hex_distance(t.own[who].position, t.enemy[foe].position) == 1,
        !(t.grid.on_map(t.enemy[foe].position) && t.grid.content(t.enemy[foe].position).urban),
    ensures
        ({
            let h = t.enemy[foe].position;
            let us = 1 + friends(
                t,
                |o: BattalionUnit|
                    o.state == UnitState::Active && o.fit && o.id != t.own[who].id && hex_distance(o.position, h) <= 1,
            );
            let them = t.enemy.filter(
                |e: BattalionUnit| e.state == UnitState::Active && e.fit && hex_distance(e.position, h) <= 1,
            ).len();
            &&& them >= 3 * us ==> is_prey(t, b, who, foe) == Ok::<bool, Query>(false)
            &&& them < 3 * us ==> is_prey(t, b, who, foe) == truth(
                b,
                Query::Trade { who: who as usize, foe: foe as usize },
            )
        }),
{
    let h = t.enemy[foe].position;
    lemma_terms(t, t.own[who], t.enemy[foe]);
    let f = |e: BattalionUnit| e.state == UnitState::Active && e.fit && hex_distance(e.position, h) <= 1;
    let g = |e: BattalionUnit| in_the_fight(e) && hex_distance(e.position, h) <= 1;
    assert(f =~= g);
    let x = |o: BattalionUnit|
        o.state == UnitState::Active && o.fit && o.id != t.own[who].id && hex_distance(o.position, h) <= 1;
    let y = |o: BattalionUnit| in_the_fight(o) && o.id != t.own[who].id && hex_distance(o.position, h) <= 1;
    assert(x =~= y);
}

} // verus!
