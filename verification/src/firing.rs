//! What holds of every plan of attack orders.
use vstd::prelude::*;
use crate::fire::{
    aimed_at, answering, area_lane, area_strike, counter_fire_upto, enemy_in_zone, in_zone, law_orders_are_held_to_the_rules,
    only_reloads, ordered, planned, replies_of, strikes_of, victims, volley_members, volley_openers, AttackOrder, AttackTarget,
    CombatParams, Counter, CounterStrike, Engagement, Lane, PlanView, Share, Strike,
};
use crate::geometry::{bears, law_an_id_stands_for_its_first_bearer, law_matches_keep_their_order};
use crate::hex::{hex_distance, HexCoord};
use crate::pick::{
    first_where, indices, law_first_where, law_those_where, law_winner_matches, those_where, winner,
};
use crate::retreat::unit_index;
use crate::unit::{BattalionUnit, Side, UnitState};

verus! {

/// The battalion is under command, fit, not shocked and may still attack: what an
/// attack order asks of it, whichever side it is on.
pub open spec fn ready(u: BattalionUnit) -> bool {
    u.state == UnitState::Active && u.fit && !u.shocked && u.can_attack_order
}

/// Something of the battalion is left on the board to be struck.
pub open spec fn can_be_struck(u: BattalionUnit) -> bool {
    &&& u.present
    &&& u.state != UnitState::Surrendered
    &&& u.state != UnitState::Eliminated
    &&& u.state != UnitState::LeftBattle
}

/// The battalion returns fire on an attacker that many hexes away.
pub open spec fn returns_fire(p: CombatParams, d: BattalionUnit, gap: int) -> bool {
    &&& !d.kind.rocket
    &&& d.kind.towed ==> d.is_emplaced
    &&& d.kind.indirect_artillery ==> gap <= p.counter_direct_lay_range
    &&& !d.kind.indirect_artillery ==> gap <= d.attack_range
}

/// The order to assault or to fire directly.
pub open spec fn attack_on(a: usize, d: usize, assault: bool) -> AttackOrder {
    AttackOrder {
        attacker: a,
        target: if assault {
            AttackTarget::Assault(d)
        } else {
            AttackTarget::DirectFire(d)
        },
    }
}

/// The battalions but for the reloading of launchers.
#[verifier::opaque]
spec fn reloaded(before: Seq<BattalionUnit>, after: Seq<BattalionUnit>) -> bool {
    only_reloads(before, after)
}

proof fn lemma_alike(before: Seq<BattalionUnit>, after: Seq<BattalionUnit>, i: int)
    requires
        reloaded(before, after),
        0 <= i < before.len(),
    ensures
        after[i] == (BattalionUnit { fire_cooldown: after[i].fire_cooldown, ..before[i] }),
{
    reveal(reloaded);
}

proof fn lemma_one_more(units: Seq<BattalionUnit>, p: CombatParams, orders: Seq<AttackOrder>, o: AttackOrder, sight: Seq<bool>)
    requires
        units.len() <= usize::MAX,
    ensures
        planned(units, p, orders.push(o), sight) == ordered(
            planned(units, p, orders, sight),
            p,
            o,
            sight[orders.len() as int],
        ),
        reloaded(units, planned(units, p, orders, sight).units),
        planned(units, p, orders, sight).units.len() == units.len(),
{
    reveal(reloaded);
    assert(orders.push(o).drop_last() =~= orders);
    law_orders_are_held_to_the_rules(p, units, orders, sight);
}

proof fn lemma_same_bearer(before: Seq<BattalionUnit>, after: Seq<BattalionUnit>, id: usize)
    requires
        reloaded(before, after),
    ensures
        unit_index(after, id) == unit_index(before, id),
{
    reveal(reloaded);
    let named = |u: BattalionUnit| u.id == id;
    law_first_where(before, named);
    law_first_where(after, named);
    if let Some(i) = first_where(before, named) {
        assert(named(after[i]));
        if let Some(j) = first_where(after, named) {
            assert(named(before[j]));
        }
    }
    if let Some(j) = first_where(after, named) {
        assert(named(before[j]));
    }
}

/// An assault is carried out exactly if the battalion is ready, may assault and
/// the target is next to it; direct fire exactly if the battalion is ready and the
/// target in its range and, unless adjacent or shelled indirectly, in its sight.
/// Such an order adds one engagement and one lane for the two, and one reply where
/// the target returns fire that far. One that the battalion is not ready for adds
/// nothing; any other is reported as lost. The sides of the two do not matter.
#[verifier::rlimit(40)]
#[verifier::spinoff_prover]
pub proof fn law_every_attack_order_is_answered_for(
    p: CombatParams,
    units: Seq<BattalionUnit>,
    orders: Seq<AttackOrder>,
    sight: Seq<bool>,
    a: int,
    d: int,
    assault: bool,
)
    requires
        units.len() <= usize::MAX,
        0 <= a < units.len() && bears(units, units[a].id, a),
        0 <= d < units.len() && bears(units, units[d].id, d),
    ensures
        ({
            let was = planned(units, p, orders, sight);
            let now = planned(units, p, orders.push(attack_on(units[a].id, units[d].id, assault)), sight);
            let gap = hex_distance(units[a].position, units[d].position);
            let willing = ready(units[a]) && (assault ==> units[a].can_assault);
            let reached = if assault {
                gap == 1
            } else {
                gap == 1 && units[a].attack_range >= 1 || 1 < gap <= units[a].attack_range && (
                units[a].kind.indirect_artillery || sight[orders.len() as int])
            };
            &&& !willing ==> now == was
            &&& willing && reached && can_be_struck(units[d]) ==> {
                &&& now.engagements == was.engagements.push(
                    Engagement { attacker: a as usize, target: d as usize, distance: gap as i64, assault },
                )
                &&& now.lanes == was.lanes.push(
                    Lane { attacker: a as usize, defender: d as usize, hex: units[d].position },
                )
                &&& returns_fire(p, units[d], gap) ==> now.counters == was.counters.push(
                    Counter { defender: d as usize, attacker: a as usize, distance: gap as i64 },
                )
                &&& !returns_fire(p, units[d], gap) ==> now.counters == was.counters
                &&& now.lost == was.lost && now.strikes == was.strikes && now.units == was.units
            }
            &&& willing && !(reached && can_be_struck(units[d])) ==> {
                &&& now.lost.len() == was.lost.len() + 1
                &&& now.lost.drop_last() == was.lost
                &&& now.lost.last().target_lost
                &&& now.lost.last().attacker_id == units[a].id
                &&& now.lost.last().defender_id == units[d].id
                &&& now.lost.last().hex == units[d].position
                &&& now.engagements == was.engagements && now.lanes == was.lanes && now.counters
                    == was.counters && now.strikes == was.strikes && now.units == was.units
            }
        }),
{
    let o = attack_on(units[a].id, units[d].id, assault);
    lemma_one_more(units, p, orders, o, sight);
    let was = planned(units, p, orders, sight);
    lemma_same_bearer(units, was.units, units[a].id);
    lemma_same_bearer(units, was.units, units[d].id);
    law_an_id_stands_for_its_first_bearer(units, units[a].id, a);
    law_an_id_stands_for_its_first_bearer(units, units[d].id, d);
    lemma_alike(units, was.units, a);
    lemma_alike(units, was.units, d);
    lemma_attack_step(was, p, a, d, assault, sight[orders.len() as int]);
}

#[verifier::rlimit(40)]
#[verifier::spinoff_prover]
proof fn lemma_attack_step(was: PlanView, p: CombatParams, a: int, d: int, assault: bool, sees: bool)
    requires
        0 <= a < was.units.len(),
        0 <= d < was.units.len(),
        unit_index(was.units, was.units[a].id) == Some(a),
        unit_index(was.units, was.units[d].id) == Some(d),
    ensures
        ({
            let units = was.units;
            let now = ordered(was, p, attack_on(units[a].id, units[d].id, assault), sees);
            let gap = hex_distance(units[a].position, units[d].position);
            let willing = ready(units[a]) && (assault ==> units[a].can_assault);
            let reached = if assault {
                gap == 1
            } else {
                gap == 1 && units[a].attack_range >= 1 || 1 < gap <= units[a].attack_range && (
                units[a].kind.indirect_artillery || sees)
            };
            &&& !willing ==> now == was
            &&& willing && reached && can_be_struck(units[d]) ==> {
                &&& now.engagements == was.engagements.push(
                    Engagement { attacker: a as usize, target: d as usize, distance: gap as i64, assault },
                )
                &&& now.lanes == was.lanes.push(
                    Lane { attacker: a as usize, defender: d as usize, hex: units[d].position },
                )
                &&& returns_fire(p, units[d], gap) ==> now.counters == was.counters.push(
                    Counter { defender: d as usize, attacker: a as usize, distance: gap as i64 },
                )
                &&& !returns_fire(p, units[d], gap) ==> now.counters == was.counters
                &&& now.lost == was.lost && now.strikes == was.strikes && now.units == was.units
            }
            &&& willing && !(reached && can_be_struck(units[d])) ==> {
                &&& now.lost.len() == was.lost.len() + 1
                &&& now.lost.drop_last() == was.lost
                &&& now.lost.last().target_lost
                &&& now.lost.last().attacker_id == units[a].id
                &&& now.lost.last().defender_id == units[d].id
                &&& now.lost.last().hex == units[d].position
                &&& now.engagements == was.engagements && now.lanes == was.lanes && now.counters
                    == was.counters && now.strikes == was.strikes && now.units == was.units
            }
        }),
{
    let units = was.units;
    let now = ordered(was, p, attack_on(units[a].id, units[d].id, assault), sees);
    let gap = hex_distance(units[a].position, units[d].position);
    assert(was.counters + Seq::<Counter>::empty() =~= was.counters);
    let c = Counter { defender: d as usize, attacker: a as usize, distance: gap as i64 };
    assert(was.counters + seq![c] =~= was.counters.push(c));
    assert(now.lost.len() > was.lost.len() ==> now.lost.drop_last() =~= was.lost);
    lemma_reply(was, p, d, a, gap);
}

/// What an attack adds to the replies.
proof fn lemma_reply(was: PlanView, p: CombatParams, d: int, a: int, gap: int)
    ensures
        gap >= 1 ==> was.counters + crate::fire::reply(p, was.units, d, a, gap) == if returns_fire(p, was.units[d], gap) {
            was.counters.push(Counter { defender: d as usize, attacker: a as usize, distance: gap as i64 })
        } else {
            was.counters
        },
{
    let c = Counter { defender: d as usize, attacker: a as usize, distance: gap as i64 };
    assert(was.counters + Seq::<Counter>::empty() =~= was.counters);
    assert(was.counters + seq![c] =~= was.counters.push(c));
}

/// An order of or against a battalion that is not there adds nothing.
#[verifier::rlimit(40)]
pub proof fn law_orders_of_nobody_add_nothing(
    p: CombatParams,
    units: Seq<BattalionUnit>,
    orders: Seq<AttackOrder>,
    sight: Seq<bool>,
    o: AttackOrder,
)
    requires
        units.len() <= usize::MAX,
        (forall|j: int| 0 <= j < units.len() ==> (#[trigger] units[j]).id != o.attacker) || match o.target {
            AttackTarget::Assault(id) => forall|j: int| 0 <= j < units.len() ==> (#[trigger] units[j]).id != id,
            AttackTarget::DirectFire(id) => forall|j: int|
                0 <= j < units.len() ==> (#[trigger] units[j]).id != id,
            AttackTarget::FireMission { hex: _, precise: _ } => false,
        },
    ensures
        planned(units, p, orders.push(o), sight) == planned(units, p, orders, sight),
{
    lemma_one_more(units, p, orders, o, sight);
    let was = planned(units, p, orders, sight);
    lemma_same_bearer(units, was.units, o.attacker);
    law_an_id_stands_for_its_first_bearer(units, o.attacker, 0);
    match o.target {
        AttackTarget::Assault(id) => {
            lemma_same_bearer(units, was.units, id);
            law_an_id_stands_for_its_first_bearer(units, id, 0);
        },
        AttackTarget::DirectFire(id) => {
            lemma_same_bearer(units, was.units, id);
            law_an_id_stands_for_its_first_bearer(units, id, 0);
        },
        _ => {},
    }
}

/// The order to fire a mission.
pub open spec fn mission_on(a: usize, hex: HexCoord, precise: bool) -> AttackOrder {
    AttackOrder { attacker: a, target: AttackTarget::FireMission { hex, precise } }
}

/// Battalion `a` is ready, loaded and has the hex in its envelope.
pub open spec fn can_shell(units: Seq<BattalionUnit>, a: int, cooldown: i64, hex: HexCoord) -> bool {
    let gap = hex_distance(units[a].position, hex);
    &&& ready(units[a])
    &&& units[a].fire_support && cooldown <= 0
    &&& gap > 0 && units[a].min_attack_range <= gap <= units[a].attack_range
}

/// Nothing of the plan changes but that one more order is reported as lost.
pub open spec fn one_lost(was: PlanView, now: PlanView, attacker: usize, hex: HexCoord) -> bool {
    &&& now.lost.len() == was.lost.len() + 1
    &&& now.lost.drop_last() == was.lost
    &&& now.lost.last().target_lost && now.lost.last().attacker_id == attacker && now.lost.last().hex == hex
    &&& now.engagements == was.engagements && now.lanes == was.lanes && now.counters == was.counters
    &&& now.strikes == was.strikes && now.units == was.units
}

/// A fire mission of a battalion that is not ready adds nothing; one that it cannot
/// fire, because it is not loaded or the hex not in its envelope, is lost.
#[verifier::rlimit(40)]
pub proof fn law_missions_need_a_loaded_gun_in_range(
    p: CombatParams,
    units: Seq<BattalionUnit>,
    orders: Seq<AttackOrder>,
    sight: Seq<bool>,
    a: int,
    hex: HexCoord,
    precise: bool,
)
    requires
        units.len() <= usize::MAX,
        0 <= a < units.len() && bears(units, units[a].id, a),
    ensures
        ({
            let was = planned(units, p, orders, sight);
            let now = planned(units, p, orders.push(mission_on(units[a].id, hex, precise)), sight);
            &&& !ready(units[a]) ==> now == was
            &&& ready(units[a]) && !can_shell(units, a, was.units[a].fire_cooldown, hex) ==> one_lost(
                was,
                now,
                units[a].id,
                hex,
            )
            &&& can_shell(units, a, was.units[a].fire_cooldown, hex) ==> now.engagements == was.engagements
        }),
{
    let o = mission_on(units[a].id, hex, precise);
    lemma_one_more(units, p, orders, o, sight);
    let was = planned(units, p, orders, sight);
    let now = planned(units, p, orders.push(o), sight);
    lemma_same_bearer(units, was.units, units[a].id);
    law_an_id_stands_for_its_first_bearer(units, units[a].id, a);
    lemma_alike(units, was.units, a);
    assert(now.lost.len() > was.lost.len() ==> now.lost.drop_last() =~= was.lost);
}

/// Battalion `d` is an enemy of battalion `a` on a hex.
pub open spec fn foe_on(units: Seq<BattalionUnit>, a: int, hex: HexCoord, d: int) -> bool {
    units[d].side != units[a].side && units[d].position == hex && can_be_struck(units[d])
}

/// Precise fire of tubes strikes the first enemy on the hex with full strength and
/// nobody else, and is lost where no enemy stands there; whoever is struck replies
/// where it returns fire that far. Nobody reloads.
#[verifier::rlimit(40)]
#[verifier::spinoff_prover]
pub proof fn law_precise_fire_strikes_the_enemy_on_the_hex(
    p: CombatParams,
    units: Seq<BattalionUnit>,
    orders: Seq<AttackOrder>,
    sight: Seq<bool>,
    a: int,
    hex: HexCoord,
    d: int,
)
    requires
        units.len() <= usize::MAX,
        0 <= a < units.len() && bears(units, units[a].id, a),
        !units[a].kind.rocket,
        can_shell(units, a, planned(units, p, orders, sight).units[a].fire_cooldown, hex),
    ensures
        ({
            let was = planned(units, p, orders, sight);
            let now = planned(units, p, orders.push(mission_on(units[a].id, hex, true)), sight);
            let gap = hex_distance(units[a].position, hex);
            &&& (forall|j: int| 0 <= j < units.len() ==> !#[trigger] foe_on(units, a, hex, j)) ==> one_lost(
                was,
                now,
                units[a].id,
                hex,
            )
            &&& 0 <= d < units.len() && foe_on(units, a, hex, d) && (forall|j: int|
                0 <= j < d ==> !#[trigger] foe_on(units, a, hex, j)) ==> {
                &&& now.strikes == was.strikes.push(
                    Strike { attacker: a as usize, target: d as usize, distance: gap as i64, share: Share::Full },
                )
                &&& now.lanes == was.lanes.push(Lane { attacker: a as usize, defender: d as usize, hex })
                &&& now.lost == was.lost && now.units == was.units && now.engagements == was.engagements
                &&& returns_fire(p, units[d], gap) ==> now.counters == was.counters.push(
                    Counter { defender: d as usize, attacker: a as usize, distance: gap as i64 },
                )
                &&& !returns_fire(p, units[d], gap) ==> now.counters == was.counters
            }
        }),
{
    let o = mission_on(units[a].id, hex, true);
    lemma_one_more(units, p, orders, o, sight);
    let was = planned(units, p, orders, sight);
    let now = planned(units, p, orders.push(o), sight);
    let us = was.units;
    lemma_same_bearer(units, us, units[a].id);
    law_an_id_stands_for_its_first_bearer(units, units[a].id, a);
    lemma_alike(units, us, a);
    let all = indices(us.len());
    let aimed = |j: usize| enemy_in_zone(us, a, hex)(j) && us[j as int].position == hex;
    law_first_where(all, aimed);
    assert forall|j: int| 0 <= j < units.len() implies aimed(all[j]) == #[trigger] foe_on(units, a, hex, j) by {
        lemma_alike(units, us, j);
        assert(hex_distance(hex, hex) == 0);
    }
    assert(aimed_at(us, a, hex) == first_where(all, aimed));
    let gap = hex_distance(units[a].position, hex);
    match first_where(all, aimed) {
        Some(k) => {
            assert(foe_on(units, a, hex, k));
            lemma_alike(units, us, k);
            if 0 <= d < units.len() && foe_on(units, a, hex, d) && (forall|j: int|
                0 <= j < d ==> !#[trigger] foe_on(units, a, hex, j)) {
                assert(aimed(all[d]));
                assert(k == d);
            }
            lemma_reply(was, p, k, a, gap);
            assert(now == crate::fire::fired_at(was, p, a, hex, k));
        },
        None => {
            if 0 <= d < units.len() && foe_on(units, a, hex, d) {
                assert(aimed(all[d]));
            }
            assert(now == crate::fire::missed(was, a, hex));
            assert(now.lost.drop_last() =~= was.lost);
        },
    }
}

/// Battalion `j` is caught by the area fire of battalion `a` on a hex: friend or
/// foe on it or next to it; only rockets come down on their own launcher.
pub open spec fn caught(units: Seq<BattalionUnit>, a: int, hex: HexCoord, j: int) -> bool {
    &&& hex_distance(units[j].position, hex) <= 1
    &&& can_be_struck(units[j])
    &&& j == a ==> units[a].kind.rocket
}

#[verifier::rlimit(40)]
proof fn lemma_victims(units: Seq<BattalionUnit>, was: Seq<BattalionUnit>, a: int, hex: HexCoord)
    requires
        units.len() <= usize::MAX,
        reloaded(units, was),
        was.len() == units.len(),
        0 <= a < units.len(),
    ensures
        ({
            let v = victims(was, a, hex);
            &&& forall|k: int| 0 <= k < v.len() ==> (#[trigger] v[k]) < units.len() && caught(units, a, hex, v[k] as int)
            &&& forall|j: int| 0 <= j < units.len() && #[trigger] caught(units, a, hex, j) ==> v.contains(j as usize)
            &&& v.no_duplicates()
        }),
{
    let all = indices(was.len());
    let ok = in_zone(was, a, hex);
    law_those_where(all, ok);
    law_matches_keep_their_order(all, ok);
    let v = victims(was, a, hex);
    assert forall|j: int| 0 <= j < units.len() implies ok(j as usize) == #[trigger] caught(units, a, hex, j) by {
        lemma_alike(units, was, j);
        lemma_alike(units, was, a);
    }
    assert forall|k: int| 0 <= k < v.len() implies (#[trigger] v[k]) < units.len() && caught(units, a, hex, v[k] as int) by {
        assert(v.contains(v[k]));
        let j = choose|j: int| 0 <= j < all.len() && all[j] == v[k];
        assert(caught(units, a, hex, j));
    }
    assert forall|j: int| 0 <= j < units.len() && #[trigger] caught(units, a, hex, j) implies v.contains(j as usize) by {
        assert(all[j] == j as usize);
        assert(all.contains(j as usize));
    }
    lemma_filter_of_indices(was.len(), ok);
}

pub(crate) proof fn lemma_filter_of_indices(n: nat, ok: spec_fn(usize) -> bool)
    requires
        n <= usize::MAX,
    ensures
        those_where(indices(n), ok).no_duplicates(),
        forall|k: int, l: int|
            0 <= k < l < those_where(indices(n), ok).len() ==> (#[trigger] those_where(indices(n), ok)[k]) < (
            #[trigger] those_where(indices(n), ok)[l]),
        forall|k: int| 0 <= k < those_where(indices(n), ok).len() ==> (#[trigger] those_where(indices(n), ok)[k]) < n,
    decreases n,
{
    let s = indices(n);
    if n > 0 {
        let m = (n - 1) as nat;
        assert(s.drop_last() =~= indices(m));
        lemma_filter_of_indices(m, ok);
    } else {
        assert(those_where(s, ok) =~= Seq::<usize>::empty());
    }
}

/// Area fire strikes each battalion that it catches once and nobody else, and each
/// strike has its lane; where it catches nobody it is lost. Rockets strike with
/// full strength; tubes with the share of the aim hex on it and with that of a
/// neighbour beside it. After a salvo the launcher reloads, and nobody else does.
#[verifier::rlimit(40)]
#[verifier::spinoff_prover]
pub proof fn law_area_fire_strikes_all_that_it_catches(
    p: CombatParams,
    units: Seq<BattalionUnit>,
    orders: Seq<AttackOrder>,
    sight: Seq<bool>,
    a: int,
    hex: HexCoord,
    precise: bool,
)
    requires
        units.len() <= usize::MAX,
        0 <= a < units.len() && bears(units, units[a].id, a),
        precise ==> units[a].kind.rocket,
        can_shell(units, a, planned(units, p, orders, sight).units[a].fire_cooldown, hex),
    ensures
        ({
            let was = planned(units, p, orders, sight);
            let now = planned(units, p, orders.push(mission_on(units[a].id, hex, precise)), sight);
            let n = was.strikes.len();
            let m = was.lanes.len();
            &&& (forall|j: int| 0 <= j < units.len() ==> !#[trigger] caught(units, a, hex, j)) ==> one_lost(
                was,
                now,
                units[a].id,
                hex,
            )
            &&& (exists|j: int| 0 <= j < units.len() && #[trigger] caught(units, a, hex, j)) ==> {
                &&& now.lost == was.lost && now.engagements == was.engagements
                &&& n <= now.strikes.len() && now.strikes.take(n as int) == was.strikes
                &&& m <= now.lanes.len() && now.lanes.take(m as int) == was.lanes
                &&& now.lanes.len() - m == now.strikes.len() - n
                &&& forall|k: int|
                    n <= k < now.strikes.len() ==> {
                        let s = #[trigger] now.strikes[k];
                        &&& s.attacker == a
                        &&& s.target < units.len() && caught(units, a, hex, s.target as int)
                        &&& s.distance == hex_distance(units[a].position, units[s.target as int].position)
                        &&& s.share == Share::Full <==> units[a].kind.rocket
                        &&& s.share == Share::Centre <==> !units[a].kind.rocket && units[s.target as int].position == hex
                        &&& now.lanes[m + (k - n)] == Lane {
                            attacker: a as usize,
                            defender: s.target,
                            hex: units[s.target as int].position,
                        }
                    }
                &&& forall|j: int|
                    0 <= j < units.len() && #[trigger] caught(units, a, hex, j) ==> exists|k: int|
                        n <= k < now.strikes.len() && (#[trigger] now.strikes[k]).target == j
                &&& forall|k: int, l: int|
                    n <= k < l < now.strikes.len() ==> (#[trigger] now.strikes[k]).target != (
                    #[trigger] now.strikes[l]).target
                &&& forall|j: int|
                    0 <= j < units.len() ==> (#[trigger] now.units[j]).fire_cooldown == if j == a
                        && units[a].kind.rocket {
                        p.rocket_fire_cooldown_turns
                    } else {
                        was.units[j].fire_cooldown
                    }
            }
        }),
{
    let o = mission_on(units[a].id, hex, precise);
    lemma_one_more(units, p, orders, o, sight);
    let was = planned(units, p, orders, sight);
    let now = planned(units, p, orders.push(o), sight);
    lemma_same_bearer(units, was.units, units[a].id);
    law_an_id_stands_for_its_first_bearer(units, units[a].id, a);
    lemma_alike(units, was.units, a);
    lemma_victims(units, was.units, a, hex);
    let v = victims(was.units, a, hex);
    let n = was.strikes.len();
    let m = was.lanes.len();
    if exists|j: int| 0 <= j < units.len() && #[trigger] caught(units, a, hex, j) {
        let j = choose|j: int| 0 <= j < units.len() && #[trigger] caught(units, a, hex, j);
        assert(v.contains(j as usize));
        assert(v.len() > 0);
        assert(now == crate::fire::shelled(was, p, a, hex));
        assert(now.strikes.take(n as int) =~= was.strikes);
        assert(now.lanes.take(m as int) =~= was.lanes);
        assert forall|k: int| n <= k < now.strikes.len() implies {
            let s = #[trigger] now.strikes[k];
            &&& s.attacker == a
            &&& s.target < units.len() && caught(units, a, hex, s.target as int)
            &&& s.distance == hex_distance(units[a].position, units[s.target as int].position)
            &&& s.share == Share::Full <==> units[a].kind.rocket
            &&& s.share == Share::Centre <==> !units[a].kind.rocket && units[s.target as int].position == hex
            &&& now.lanes[m + (k - n)] == Lane {
                attacker: a as usize,
                defender: s.target,
                hex: units[s.target as int].position,
            }
        } by {
            let x = v[k - n];
            assert(now.strikes[k] == area_strike(was.units, a, hex)(x));
            assert(now.lanes[m + (k - n)] == area_lane(was.units, a)(x));
            lemma_alike(units, was.units, x as int);
        }
        assert forall|j: int| 0 <= j < units.len() && #[trigger] caught(units, a, hex, j) implies exists|k: int|
            n <= k < now.strikes.len() && (#[trigger] now.strikes[k]).target == j by {
            assert(v.contains(j as usize));
            let k = choose|k: int| 0 <= k < v.len() && v[k] == j as usize;
            assert(now.strikes[n + k].target == j);
        }
        assert forall|k: int, l: int| n <= k < l < now.strikes.len() implies (#[trigger] now.strikes[k]).target != (
        #[trigger] now.strikes[l]).target by {
            assert(now.strikes[k].target == v[k - n]);
            assert(now.strikes[l].target == v[l - n]);
        }
    } else {
        if v.len() > 0 {
            assert(caught(units, a, hex, v[0] as int));
        }
        assert(now == crate::fire::missed(was, a, hex));
        assert(now.lost.drop_last() =~= was.lost);
    }
}

/// Battalion `d` is an enemy of battalion `a` on a hex or next to it.
pub open spec fn foe_near(units: Seq<BattalionUnit>, a: int, hex: HexCoord, d: int) -> bool {
    units[d].side != units[a].side && hex_distance(units[d].position, hex) <= 1 && can_be_struck(units[d])
}

proof fn lemma_strongest_answers(units: Seq<BattalionUnit>, ok: spec_fn(usize) -> bool, s: Seq<usize>)
    ensures
        winner(s, ok, |x: usize, y: usize| units[x as int].org >= units[y as int].org) matches Some(i) ==> 0 <= i
            < s.len() && ok(s[i]) && forall|j: int|
            0 <= j < s.len() && ok(#[trigger] s[j]) ==> units[s[j] as int].org < units[s[i] as int].org || (
            units[s[j] as int].org == units[s[i] as int].org && j <= i),
    decreases s.len(),
{
    let beats = |x: usize, y: usize| units[x as int].org >= units[y as int].org;
    law_winner_matches(s, ok, beats);
    if s.len() > 0 {
        let t = s.drop_last();
        lemma_strongest_answers(units, ok, t);
        law_winner_matches(t, ok, beats);
        assert forall|j: int| 0 <= j < s.len() && j != s.len() - 1 implies t[j] == #[trigger] s[j] by {}
    }
}

/// One battalion answers area fire at most, and only an enemy near the aim hex that
/// returns fire as far as the hex is: the first on the hex where any stands there, and
/// else the last of those than which no other enemy there is better organised. Where
/// no enemy is near nobody answers.
#[verifier::rlimit(40)]
#[verifier::spinoff_prover]
pub proof fn law_one_enemy_answers_area_fire(
    p: CombatParams,
    units: Seq<BattalionUnit>,
    orders: Seq<AttackOrder>,
    sight: Seq<bool>,
    a: int,
    hex: HexCoord,
) -> (d: int)
    requires
        units.len() <= usize::MAX,
        0 <= a < units.len() && bears(units, units[a].id, a),
        can_shell(units, a, planned(units, p, orders, sight).units[a].fire_cooldown, hex),
        exists|j: int| 0 <= j < units.len() && #[trigger] caught(units, a, hex, j),
    ensures
        ({
            let was = planned(units, p, orders, sight);
            let now = planned(units, p, orders.push(mission_on(units[a].id, hex, false)), sight);
            let gap = hex_distance(units[a].position, hex);
            let any_near = exists|j: int| 0 <= j < units.len() && #[trigger] foe_near(units, a, hex, j);
            &&& !any_near ==> now.counters == was.counters
            &&& any_near ==> {
                &&& 0 <= d < units.len() && foe_near(units, a, hex, d)
                &&& units[d].position == hex || forall|j: int|
                    0 <= j < units.len() && #[trigger] foe_near(units, a, hex, j) ==> units[j].position != hex && (
                    units[j].org < units[d].org || (units[j].org == units[d].org && j <= d))
                &&& units[d].position == hex ==> forall|j: int|
                    0 <= j < d ==> !((#[trigger] foe_near(units, a, hex, j)) && units[j].position == hex)
                &&& returns_fire(p, units[d], gap) ==> now.counters == was.counters.push(
                    Counter { defender: d as usize, attacker: a as usize, distance: gap as i64 },
                )
                &&& !returns_fire(p, units[d], gap) ==> now.counters == was.counters
            }
        }),
{
    let o = mission_on(units[a].id, hex, false);
    lemma_one_more(units, p, orders, o, sight);
    let was = planned(units, p, orders, sight);
    let now = planned(units, p, orders.push(o), sight);
    let us = was.units;
    lemma_same_bearer(units, us, units[a].id);
    law_an_id_stands_for_its_first_bearer(units, units[a].id, a);
    lemma_alike(units, us, a);
    lemma_victims(units, us, a, hex);
    let c = choose|j: int| 0 <= j < units.len() && #[trigger] caught(units, a, hex, j);
    assert(victims(us, a, hex).contains(c as usize));
    let all = indices(us.len());
    let near = enemy_in_zone(us, a, hex);
    let aimed = |j: usize| near(j) && us[j as int].position == hex;
    let beats = |x: usize, y: usize| us[x as int].org >= us[y as int].org;
    assert forall|j: int| 0 <= j < units.len() implies near(all[j]) == #[trigger] foe_near(units, a, hex, j) by {
        lemma_alike(units, us, j);
    }
    assert(now == crate::fire::shelled(was, p, a, hex));
    law_first_where(all, aimed);
    law_winner_matches(all, near, beats);
    lemma_strongest_answers(us, near, all);
    assert(aimed_at(us, a, hex) == first_where(all, aimed));
    let gap = hex_distance(units[a].position, hex);
    match answering(us, a, hex) {
        Some(k) => {
            assert(near(all[k]));
            assert(foe_near(units, a, hex, k));
            lemma_alike(units, us, k);
            lemma_reply(was, p, k, a, gap);
            assert forall|j: int| 0 <= j < units.len() && #[trigger] foe_near(units, a, hex, j) && units[k].position
                != hex implies units[j].position != hex && (units[j].org < units[k].org || (units[j].org == units[k].org && j
                <= k)) by {
                assert(near(all[j]));
                lemma_alike(units, us, j);
                assert(!aimed(all[j]));
            }
            if units[k].position == hex {
                assert(aimed(all[k]));
                assert forall|j: int| 0 <= j < k implies !((#[trigger] foe_near(units, a, hex, j)) && units[j].position
                    == hex) by {
                    lemma_alike(units, us, j);
                    assert(!aimed(all[j]));
                }
            }
            k
        },
        None => {
            assert forall|j: int| 0 <= j < units.len() implies !#[trigger] foe_near(units, a, hex, j) by {
                assert(!near(all[j]));
            }
            0
        },
    }
}

/// Each reply of a battalion that still fights is fired, with the firepower split
/// over all the replies of that battalion.
#[verifier::rlimit(40)]
#[verifier::spinoff_prover]
pub proof fn law_every_reply_of_a_fighting_battalion_is_fired(
    units: Seq<BattalionUnit>,
    counters: Seq<Counter>,
    n: nat,
    c: Counter,
)
    requires
        n <= units.len() <= usize::MAX,
        counters.len() <= usize::MAX,
        counters.contains(c),
        c.defender < n,
        units[c.defender as int].state == UnitState::Active && units[c.defender as int].fit,
    ensures
        counter_fire_upto(units, counters, n).contains(
            CounterStrike {
                defender: c.defender,
                attacker: c.attacker,
                distance: c.distance,
                split: counters.filter(|x: Counter| x.defender == c.defender).len() as usize,
            },
        ),
    decreases n,
{
    let d = c.defender as int;
    let own = |x: Counter| x.defender == d;
    let wanted = CounterStrike {
        defender: c.defender,
        attacker: c.attacker,
        distance: c.distance,
        split: counters.filter(|x: Counter| x.defender == c.defender).len() as usize,
    };
    let m = (n - 1) as nat;
    let rest = counter_fire_upto(units, counters, m);
    let all = counter_fire_upto(units, counters, n);
    if d < m {
        law_every_reply_of_a_fighting_battalion_is_fired(units, counters, m, c);
        let k = choose|k: int| 0 <= k < rest.len() && rest[k] == wanted;
        assert(all[k] == wanted);
    } else {
        assert((|x: Counter| x.defender == c.defender) =~= own);
        law_those_where(counters, own);
        law_matches_keep_their_order(counters, own);
        let r = replies_of(counters, d);
        assert(r.contains(c));
        let k = choose|k: int| 0 <= k < r.len() && r[k] == c;
        assert(strikes_of(counters, d)[k] == wanted);
        assert(all[rest.len() + k] == wanted);
    }
}

/// Each engagement belongs to the volley of exactly one opener, which strikes the
/// same battalion in the same kind of attack and no later; the volleys of two
/// openers differ in the battalion or in the kind.
pub proof fn law_volleys_split_the_engagements(e: Seq<Engagement>, j: int, x: int, y: int)
    requires
        e.len() <= usize::MAX,
        0 <= j < e.len(),
    ensures
        exists|o: int|
            0 <= o <= j && volley_openers(e).contains(o as usize) && #[trigger] volley_members(e, o).contains(j as usize),
        0 <= x < e.len() ==> (volley_members(e, x).contains(j as usize) <==> e[j].target == e[x].target
            && e[j].assault == e[x].assault),
        0 <= x < y < e.len() && volley_openers(e).contains(x as usize) && volley_openers(e).contains(y as usize)
            ==> e[x].target != e[y].target || e[x].assault != e[y].assault,
{
    let all = indices(e.len());
    let ok = crate::fire::opens_volley(e);
    law_those_where(all, ok);
    let o = lemma_opener(e, j);
    assert(all[o] == o as usize && all[j] == j as usize);
    let mine = |i: usize| crate::fire::same_volley(e[i as int], e[o]);
    law_those_where(all, mine);
    assert(all.contains(j as usize) && all.contains(o as usize));
    assert(volley_members(e, o).contains(j as usize));
    if 0 <= x < e.len() {
        let theirs = |i: usize| crate::fire::same_volley(e[i as int], e[x]);
        law_those_where(all, theirs);
    }
    if 0 <= x < y < e.len() && volley_openers(e).contains(x as usize) && volley_openers(e).contains(y as usize) {
        assert(ok(y as usize));
        assert(!crate::fire::same_volley(e[x], e[y]));
    }
}

proof fn lemma_opener(e: Seq<Engagement>, j: int) -> (o: int)
    requires
        e.len() <= usize::MAX,
        0 <= j < e.len(),
    ensures
        0 <= o <= j,
        e[o].target == e[j].target && e[o].assault == e[j].assault,
        crate::fire::opens_volley(e)(o as usize),
    decreases j,
{
    if crate::fire::opens_volley(e)(j as usize) {
        j
    } else {
        let i = choose|i: int| 0 <= i < j && crate::fire::same_volley(#[trigger] e[i], e[j]);
        lemma_opener(e, i)
    }
}

/// The battalion on the other side.
pub open spec fn exchanged(u: BattalionUnit) -> BattalionUnit {
    BattalionUnit {
        side: match u.side {
            Side::Attacker => Side::Defender,
            Side::Defender => Side::Attacker,
        },
        ..u
    }
}

/// The battalions with the two sides exchanged.
pub open spec fn sides_exchanged(units: Seq<BattalionUnit>) -> Seq<BattalionUnit> {
    units.map_values(|u: BattalionUnit| exchanged(u))
}

proof fn lemma_first_alike<A, B>(s: Seq<A>, t: Seq<B>, f: spec_fn(A) -> bool, g: spec_fn(B) -> bool)
    requires
        s.len() == t.len(),
        forall|i: int| 0 <= i < s.len() ==> f(#[trigger] s[i]) == g(t[i]),
    ensures
        first_where(s, f) == first_where(t, g),
{
    law_first_where(s, f);
    law_first_where(t, g);
    if let Some(i) = first_where(s, f) {
        assert(g(t[i]));
        if let Some(j) = first_where(t, g) {
            assert(f(s[j]));
        }
    }
    if let Some(j) = first_where(t, g) {
        assert(f(s[j]));
    }
}

proof fn lemma_winner_alike(s: Seq<usize>, f: spec_fn(usize) -> bool, g: spec_fn(usize) -> bool, x: spec_fn(usize, usize) -> bool, y: spec_fn(usize, usize) -> bool)
    requires
        forall|i: int| 0 <= i < s.len() ==> f(#[trigger] s[i]) == g(s[i]),
        forall|i: int, j: int| 0 <= i < s.len() && 0 <= j < s.len() ==> x(#[trigger] s[i], #[trigger] s[j]) == y(s[i], s[j]),
    ensures
        winner(s, f, x) == winner(s, g, y),
    decreases s.len(),
{
    if s.len() > 0 {
        let t = s.drop_last();
        assert forall|i: int| 0 <= i < t.len() implies f(#[trigger] t[i]) == g(t[i]) by {
            assert(t[i] == s[i]);
        }
        assert forall|i: int, j: int| 0 <= i < t.len() && 0 <= j < t.len() implies x(#[trigger] t[i], #[trigger] t[j])
            == y(t[i], t[j]) by {
            assert(t[i] == s[i] && t[j] == s[j]);
        }
        lemma_winner_alike(t, f, g, x, y);
        law_winner_matches(t, g, y);
        assert(s.last() == s[s.len() - 1]);
        if let Some(i) = winner(t, g, y) {
            assert(t[i] == s[i]);
        }
    }
}

proof fn lemma_those_alike(s: Seq<usize>, f: spec_fn(usize) -> bool, g: spec_fn(usize) -> bool)
    requires
        forall|i: int| 0 <= i < s.len() ==> f(#[trigger] s[i]) == g(s[i]),
    ensures
        those_where(s, f) == those_where(s, g),
    decreases s.len(),
{
    if s.len() > 0 {
        let t = s.drop_last();
        assert forall|i: int| 0 <= i < t.len() implies f(#[trigger] t[i]) == g(t[i]) by {
            assert(t[i] == s[i]);
        }
        lemma_those_alike(t, f, g);
        assert(s.last() == s[s.len() - 1]);
    }
}

#[verifier::rlimit(40)]
proof fn lemma_zone_alike(units: Seq<BattalionUnit>, a: int, hex: HexCoord)
    requires
        units.len() <= usize::MAX,
        0 <= a < units.len(),
    ensures
        ({
            let them = sides_exchanged(units);
            &&& aimed_at(them, a, hex) == aimed_at(units, a, hex)
            &&& answering(them, a, hex) == answering(units, a, hex)
            &&& victims(them, a, hex) == victims(units, a, hex)
            &&& victims(them, a, hex).map_values(area_strike(them, a, hex)) == victims(units, a, hex).map_values(
                area_strike(units, a, hex),
            )
            &&& victims(them, a, hex).map_values(area_lane(them, a)) == victims(units, a, hex).map_values(
                area_lane(units, a),
            )
        }),
{
    let them = sides_exchanged(units);
    let all = indices(units.len());
    let f = enemy_in_zone(units, a, hex);
    let g = enemy_in_zone(them, a, hex);
    lemma_first_alike(
        all,
        all,
        |j: usize| f(j) && units[j as int].position == hex,
        |j: usize| g(j) && them[j as int].position == hex,
    );
    assert(aimed_at(units, a, hex) == first_where(all, |j: usize| f(j) && units[j as int].position == hex));
    assert(aimed_at(them, a, hex) == first_where(all, |j: usize| g(j) && them[j as int].position == hex));
    lemma_winner_alike(
        all,
        f,
        g,
        |x: usize, y: usize| units[x as int].org >= units[y as int].org,
        |x: usize, y: usize| them[x as int].org >= them[y as int].org,
    );
    lemma_those_alike(all, in_zone(units, a, hex), in_zone(them, a, hex));
    lemma_filter_of_indices(units.len(), in_zone(units, a, hex));
    let v = victims(units, a, hex);
    assert(v.map_values(area_strike(them, a, hex)) =~= v.map_values(area_strike(units, a, hex)));
    assert(v.map_values(area_lane(them, a)) =~= v.map_values(area_lane(units, a)));
}

proof fn lemma_engaged_alike(was: PlanView, p: CombatParams, a: int, d: int, assault: bool, sees: bool)
    requires
        0 <= a < was.units.len(),
        0 <= d < was.units.len(),
    ensures
        ({
            let now = crate::fire::engaged(was, p, a, d, assault, sees);
            crate::fire::engaged(PlanView { units: sides_exchanged(was.units), ..was }, p, a, d, assault, sees) == (
            PlanView { units: sides_exchanged(now.units), ..now })
        }),
{
}

proof fn lemma_fired_alike(was: PlanView, p: CombatParams, a: int, hex: HexCoord, precise: bool)
    requires
        0 <= a < was.units.len() <= usize::MAX,
    ensures
        ({
            let now = crate::fire::fired(was, p, a, hex, precise);
            crate::fire::fired(PlanView { units: sides_exchanged(was.units), ..was }, p, a, hex, precise) == (PlanView {
                units: sides_exchanged(now.units),
                ..now
            })
        }),
{
    let us = was.units;
    let other = PlanView { units: sides_exchanged(us), ..was };
    lemma_zone_alike(us, a, hex);
    let all = indices(us.len());
    let f = enemy_in_zone(us, a, hex);
    law_first_where(all, |j: usize| f(j) && us[j as int].position == hex);
    lemma_shelled_alike(was, p, a, hex);
    if let Some(d) = aimed_at(us, a, hex) {
        lemma_fired_at_alike(was, p, a, hex, d);
    }
    assert(crate::fire::missed(other, a, hex) == (PlanView {
        units: sides_exchanged(us),
        ..crate::fire::missed(was, a, hex)
    }));
}

proof fn lemma_fired_at_alike(was: PlanView, p: CombatParams, a: int, hex: HexCoord, d: int)
    requires
        0 <= a < was.units.len(),
        0 <= d < was.units.len(),
    ensures
        ({
            let now = crate::fire::fired_at(was, p, a, hex, d);
            crate::fire::fired_at(PlanView { units: sides_exchanged(was.units), ..was }, p, a, hex, d) == (PlanView {
                units: sides_exchanged(now.units),
                ..now
            })
        }),
{
}

proof fn lemma_shelled_alike(was: PlanView, p: CombatParams, a: int, hex: HexCoord)
    requires
        0 <= a < was.units.len() <= usize::MAX,
    ensures
        ({
            let now = crate::fire::shelled(was, p, a, hex);
            crate::fire::shelled(PlanView { units: sides_exchanged(was.units), ..was }, p, a, hex) == (PlanView {
                units: sides_exchanged(now.units),
                ..now
            })
        }),
{
    let us = was.units;
    let now = crate::fire::shelled(was, p, a, hex);
    let twin = crate::fire::shelled(PlanView { units: sides_exchanged(us), ..was }, p, a, hex);
    lemma_zone_alike(us, a, hex);
    let all = indices(us.len());
    let f = enemy_in_zone(us, a, hex);
    law_first_where(all, |j: usize| f(j) && us[j as int].position == hex);
    law_winner_matches(all, f, |x: usize, y: usize| us[x as int].org >= us[y as int].org);
    lemma_reload_alike(us, a, p.rocket_fire_cooldown_turns);
    if let Some(d) = answering(us, a, hex) {
        lemma_reply_alike(p, us, d, a, hex_distance(us[a].position, hex));
    }
    assert(twin.strikes == now.strikes);
    assert(twin.lanes == now.lanes);
    assert(twin.counters == now.counters);
    assert(twin.units == sides_exchanged(now.units));
}

proof fn lemma_reply_alike(p: CombatParams, units: Seq<BattalionUnit>, d: int, a: int, gap: int)
    requires
        0 <= d < units.len(),
    ensures
        crate::fire::reply(p, sides_exchanged(units), d, a, gap) == crate::fire::reply(p, units, d, a, gap),
{
}

proof fn lemma_reload_alike(units: Seq<BattalionUnit>, a: int, turns: i64)
    requires
        0 <= a < units.len(),
    ensures
        ({
            let them = sides_exchanged(units);
            &&& them[a].position == units[a].position && them[a].kind == units[a].kind
            &&& sides_exchanged(units.update(a, BattalionUnit { fire_cooldown: turns, ..units[a] })) == them.update(
                a,
                BattalionUnit { fire_cooldown: turns, ..them[a] },
            )
        }),
{
    let them = sides_exchanged(units);
    let u = BattalionUnit { fire_cooldown: turns, ..units[a] };
    let v = BattalionUnit { fire_cooldown: turns, ..them[a] };
    lemma_exchange_keeps_reloading(units[a], turns);
    let x = sides_exchanged(units.update(a, u));
    let y = them.update(a, v);
    assert forall|i: int| 0 <= i < x.len() implies x[i] == y[i] by {
        if i != a {
            assert(x[i] == exchanged(units[i]));
        }
    }
    assert(x =~= y);
}

proof fn lemma_exchange_keeps_reloading(u: BattalionUnit, turns: i64)
    ensures
        exchanged(BattalionUnit { fire_cooldown: turns, ..u }) == (BattalionUnit { fire_cooldown: turns, ..exchanged(u) }),
{
}

#[verifier::rlimit(40)]
proof fn lemma_order_alike(was: PlanView, p: CombatParams, o: AttackOrder, sees: bool)
    requires
        was.units.len() <= usize::MAX,
    ensures
        ({
            let now = ordered(was, p, o, sees);
            ordered(PlanView { units: sides_exchanged(was.units), ..was }, p, o, sees) == (PlanView {
                units: sides_exchanged(now.units),
                ..now
            })
        }),
{
    let us = was.units;
    let them = sides_exchanged(us);
    lemma_first_alike(us, them, |u: BattalionUnit| u.id == o.attacker, |u: BattalionUnit| u.id == o.attacker);
    law_first_where(us, |u: BattalionUnit| u.id == o.attacker);
    if let Some(a) = unit_index(us, o.attacker) {
        match o.target {
            AttackTarget::Assault(id) => {
                lemma_first_alike(us, them, |u: BattalionUnit| u.id == id, |u: BattalionUnit| u.id == id);
                law_first_where(us, |u: BattalionUnit| u.id == id);
                if let Some(d) = unit_index(us, id) {
                    lemma_engaged_alike(was, p, a, d, true, sees);
                }
            },
            AttackTarget::DirectFire(id) => {
                lemma_first_alike(us, them, |u: BattalionUnit| u.id == id, |u: BattalionUnit| u.id == id);
                law_first_where(us, |u: BattalionUnit| u.id == id);
                if let Some(d) = unit_index(us, id) {
                    lemma_engaged_alike(was, p, a, d, false, sees);
                }
            },
            AttackTarget::FireMission { hex, precise } => {
                lemma_fired_alike(was, p, a, hex, precise);
            },
        }
    }
}

/// No rule of attack looks at which side is which: with the two sides exchanged the
/// same orders come to the same engagements, strikes, lanes, replies and lost
/// orders.
pub proof fn law_the_rules_of_attack_are_the_same_for_both_sides(
    p: CombatParams,
    units: Seq<BattalionUnit>,
    orders: Seq<AttackOrder>,
    sight: Seq<bool>,
)
    requires
        units.len() <= usize::MAX,
    ensures
        planned(sides_exchanged(units), p, orders, sight) == (PlanView {
            units: sides_exchanged(planned(units, p, orders, sight).units),
            ..planned(units, p, orders, sight)
        }),
    decreases orders.len(),
{
    if orders.len() > 0 {
        let rest = orders.drop_last();
        law_the_rules_of_attack_are_the_same_for_both_sides(p, units, rest, sight);
        lemma_one_more(units, p, rest, orders.last(), sight);
        let was = planned(units, p, rest, sight);
        assert(rest.push(orders.last()) =~= orders);
        lemma_order_alike(was, p, orders.last(), sight[orders.len() - 1]);
    } else {
        assert(planned(sides_exchanged(units), p, orders, sight) =~= (PlanView {
            units: sides_exchanged(units),
            ..planned(units, p, orders, sight)
        }));
    }
}

/// Without orders there is no plan, and nobody reloads.
pub proof fn law_no_orders_no_attacks(p: CombatParams, units: Seq<BattalionUnit>, sight: Seq<bool>)
    ensures
        ({
            let pl = planned(units, p, Seq::empty(), sight);
            &&& pl.lost.len() == 0 && pl.engagements.len() == 0 && pl.strikes.len() == 0
            &&& pl.lanes.len() == 0 && pl.counters.len() == 0
            &&& pl.units == units
        }),
{
}

/// A lost order is reported without any damage or other outcome.
pub proof fn law_lost_orders_do_nothing(p: CombatParams, units: Seq<BattalionUnit>, orders: Seq<AttackOrder>, sight: Seq<bool>, k: int)
    ensures
        ({
            let lost = planned(units, p, orders, sight).lost;
            0 <= k < lost.len() ==> {
                let r = lost[k];
                &&& r.target_lost
                &&& r.org_damage_dealt == 0 && r.str_damage_dealt == 0 && r.org_damage_taken == 0 && r.str_damage_taken == 0
                &&& !r.defender_broken && !r.advanced && !r.surrendered && !r.eliminated
                &&& !r.shocked_defender && !r.shocked_attacker
            }
        }),
    decreases orders.len(),
{
    if orders.len() > 0 {
        law_lost_orders_do_nothing(p, units, orders.drop_last(), sight, k);
        let was = planned(units, p, orders.drop_last(), sight);
        let now = planned(units, p, orders, sight);
        if 0 <= k < was.lost.len() {
            assert(now.lost[k] == was.lost[k]);
        }
    }
}

/// As many replies are fired as there are of battalions that still fight.
pub proof fn law_each_reply_is_fired_once(units: Seq<BattalionUnit>, counters: Seq<Counter>, n: nat)
    requires
        n <= units.len() <= usize::MAX,
    ensures
        counter_fire_upto(units, counters, n).len() == counters.filter(
            |c: Counter| c.defender < n && units[c.defender as int].state == UnitState::Active && units[c.defender as int].fit,
        ).len(),
    decreases n,
{
    let f = |c: Counter| c.defender < n && units[c.defender as int].state == UnitState::Active && units[c.defender as int].fit;
    if n > 0 {
        let m = (n - 1) as nat;
        law_each_reply_is_fired_once(units, counters, m);
        let g = |c: Counter|
            c.defender < m && units[c.defender as int].state == UnitState::Active && units[c.defender as int].fit;
        let own = |c: Counter| c.defender == n - 1;
        let none = |c: Counter| false;
        law_matches_keep_their_order(counters, own);
        if units[n - 1].effective() {
            lemma_filters_add(counters, f, g, own);
        } else {
            lemma_filters_add(counters, f, g, none);
            lemma_nothing_matches(counters, none);
        }
    } else {
        lemma_nothing_matches(counters, f);
    }
}

proof fn lemma_nothing_matches(s: Seq<Counter>, f: spec_fn(Counter) -> bool)
    requires
        forall|c: Counter| !#[trigger] f(c),
    ensures
        s.filter(f).len() == 0,
    decreases s.len(),
{
    reveal(Seq::filter);
    if s.len() > 0 {
        lemma_nothing_matches(s.drop_last(), f);
    }
}

proof fn lemma_filters_add(s: Seq<Counter>, f: spec_fn(Counter) -> bool, g: spec_fn(Counter) -> bool, h: spec_fn(Counter) -> bool)
    requires
        forall|c: Counter| #[trigger] f(c) == (g(c) || h(c)),
        forall|c: Counter| !(#[trigger] g(c) && h(c)),
    ensures
        s.filter(f).len() == s.filter(g).len() + s.filter(h).len(),
    decreases s.len(),
{
    reveal(Seq::filter);
    if s.len() > 0 {
        lemma_filters_add(s.drop_last(), f, g, h);
        assert(f(s.last()) == (g(s.last()) || h(s.last())));
        assert(!(g(s.last()) && h(s.last())));
    }
}

/// Every battalion that is active, fit, not shocked and may attack makes the assault that
/// it is ordered to make on a battalion next to it that is left on the board, and its
/// direct fire on one that it reaches and sees, whichever side it is on: the plan holds
/// the engagement and the lane of the two, whatever is ordered before and after.
#[verifier::rlimit(40)]
pub proof fn law_no_attack_order_is_dropped(
    p: CombatParams,
    units: Seq<BattalionUnit>,
    orders: Seq<AttackOrder>,
    sight: Seq<bool>,
    k: int,
    a: int,
    d: int,
)
    requires
        units.len() <= usize::MAX,
        0 <= k < orders.len(),
        0 <= a < units.len() && units[a].id == orders[k].attacker,
        forall|j: int| 0 <= j < a ==> (#[trigger] units[j]).id != orders[k].attacker,
        0 <= d < units.len(),
        forall|j: int| 0 <= j < d ==> (#[trigger] units[j]).id != units[d].id,
        units[a].state == UnitState::Active && units[a].fit && !units[a].shocked && units[a].can_attack_order,
        units[d].present && (units[d].state == UnitState::Active || units[d].state == UnitState::Retreating || units[d].state
            == UnitState::Withdrawn),
        match orders[k].target {
            AttackTarget::Assault(id) => id == units[d].id && units[a].can_assault && hex_distance(
                units[a].position,
                units[d].position,
            ) == 1,
            AttackTarget::DirectFire(id) => id == units[d].id && 1 <= hex_distance(units[a].position, units[d].position)
                <= units[a].attack_range && (sight[k] || units[a].kind.indirect_artillery || hex_distance(
                units[a].position,
                units[d].position,
            ) == 1),
            AttackTarget::FireMission { hex: _, precise: _ } => false,
        },
    ensures
        planned(units, p, orders, sight).engagements.contains(
            Engagement {
                attacker: a as usize,
                target: d as usize,
                distance: hex_distance(units[a].position, units[d].position) as i64,
                assault: orders[k].target is Assault,
            },
        ),
        planned(units, p, orders, sight).lanes.contains(
            Lane { attacker: a as usize, defender: d as usize, hex: units[d].position },
        ),
    decreases orders.len(),
{
    let rest = orders.drop_last();
    let o = orders.last();
    assert(rest.push(o) =~= orders);
    lemma_plan_grows(p, units, rest, o, sight);
    let was = planned(units, p, rest, sight);
    let now = planned(units, p, orders, sight);
    let e = Engagement {
        attacker: a as usize,
        target: d as usize,
        distance: hex_distance(units[a].position, units[d].position) as i64,
        assault: orders[k].target is Assault,
    };
    let l = Lane { attacker: a as usize, defender: d as usize, hex: units[d].position };
    if k < rest.len() {
        assert(rest[k] == orders[k]);
        law_no_attack_order_is_dropped(p, units, rest, sight, k, a, d);
        let x = choose|x: int| 0 <= x < was.engagements.len() && was.engagements[x] == e;
        assert(now.engagements[x] == e);
        let y = choose|y: int| 0 <= y < was.lanes.len() && was.lanes[y] == l;
        assert(now.lanes[y] == l);
    } else {
        let assault = o.target is Assault;
        assert(o == attack_on(units[a].id, units[d].id, assault));
        assert(bears(units, units[a].id, a));
        assert(bears(units, units[d].id, d));
        law_every_attack_order_is_answered_for(p, units, rest, sight, a, d, assault);
        assert(now.engagements[was.engagements.len() as int] == e);
        assert(now.lanes[was.lanes.len() as int] == l);
    }
}

proof fn lemma_plan_grows(p: CombatParams, units: Seq<BattalionUnit>, orders: Seq<AttackOrder>, o: AttackOrder, sight: Seq<bool>)
    requires
        units.len() <= usize::MAX,
    ensures
        ({
            let was = planned(units, p, orders, sight);
            let now = planned(units, p, orders.push(o), sight);
            &&& was.engagements.len() <= now.engagements.len() && was.lanes.len() <= now.lanes.len()
            &&& forall|x: int| 0 <= x < was.engagements.len() ==> (#[trigger] now.engagements[x]) == was.engagements[x]
            &&& forall|x: int| 0 <= x < was.lanes.len() ==> (#[trigger] now.lanes[x]) == was.lanes[x]
        }),
{
    lemma_one_more(units, p, orders, o, sight);
}

} // verus!
