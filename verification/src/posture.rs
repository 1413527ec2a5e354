//! What holds of every role, and of where the enemy is seen to stand.
use vstd::prelude::*;
use crate::hex::{hex_distance, HexCoord};
use crate::pick::{law_least, least};
use crate::role::{card_objective, objective_of, rearguard_keys, rearguard_of, role_of, StrategicObjective, UnitRole};
use crate::tactic::CombatTactic;
use crate::turn::{
    drawing_fire, enemy_distance, fighting, fire_distance, gap_to, isolated_enemy_hex, isolation_keys, nearest_enemy_hex,
    nearness_keys, support, supports,
};
use crate::unit::{BattalionUnit, UnitState};

verus! {

/// A battalion with less than three tenths of its organisation is damaged; the
/// number is the bit pattern of that share.
pub open spec fn damaged(u: BattalionUnit) -> bool {
    u.org_ratio < 0x3e99_999au32
}

/// A battalion of line infantry that is fit for its card: undamaged, and no
/// headquarters, rearguard, gun, armour, reconnaissance or support company.
pub open spec fn line_infantry(u: BattalionUnit, rearguard: Option<usize>) -> bool {
    &&& !damaged(u)
    &&& rearguard != Some(u.id)
    &&& !u.kind.hq && !u.kind.indirect_artillery && !u.kind.gun && !u.kind.armor && !u.kind.recon
        && !u.kind.support_company
}

/// Line infantry, motorized or not, assaults under the five cards that advance it;
/// under the blitz exactly the motorized assaults; under every other card it holds.
pub proof fn law_line_infantry_assaults_under_the_advancing_cards(u: BattalionUnit, rearguard: Option<usize>)
    requires
        line_infantry(u, rearguard),
    ensures
        role_of(CombatTactic::MassCharge, u, rearguard) == UnitRole::Assault,
        role_of(CombatTactic::InfiltrationAssault, u, rearguard) == UnitRole::Assault,
        role_of(CombatTactic::GuerrillaTactics, u, rearguard) == UnitRole::Assault,
        role_of(CombatTactic::Assault, u, rearguard) == UnitRole::Assault,
        role_of(CombatTactic::RiverAssault, u, rearguard) == UnitRole::Assault,
        role_of(CombatTactic::Blitz, u, rearguard) == if u.kind.motorized {
            UnitRole::Assault
        } else {
            UnitRole::HoldPosition
        },
        forall|card: CombatTactic|
            card != CombatTactic::MassCharge && card != CombatTactic::InfiltrationAssault && card
                != CombatTactic::GuerrillaTactics && card != CombatTactic::Assault && card
                != CombatTactic::RiverAssault && card != CombatTactic::Blitz ==> #[trigger] role_of(card, u, rearguard)
                == UnitRole::HoldPosition,
{
}

/// An undamaged battalion that is neither a headquarters nor the rearguard goes by
/// its kind: guns and artillery give support fire, other armour and then other
/// reconnaissance and support companies have the roles of their kinds. Armour rides
/// round the flanks of an encirclement or an elastic defence, holds in a withdrawal
/// or a fire plan, and assaults under every other card.
pub proof fn law_roles_go_by_kind(card: CombatTactic, u: BattalionUnit, rearguard: Option<usize>)
    requires
        !u.kind.hq && !damaged(u) && rearguard != Some(u.id),
    ensures
        u.kind.indirect_artillery || u.kind.gun <==> role_of(card, u, rearguard) == UnitRole::SupportFire,
        !(u.kind.indirect_artillery || u.kind.gun) && u.kind.armor ==> {
            let role = role_of(card, u, rearguard);
            &&& role == UnitRole::Flank <==> card == CombatTactic::Encirclement || card == CombatTactic::ElasticDefense
            &&& role == UnitRole::HoldPosition <==> card == CombatTactic::TacticalWithdrawal || card
                == CombatTactic::OverwhelmingFire
            &&& role == UnitRole::Flank || role == UnitRole::HoldPosition || role == UnitRole::Assault
        },
        !(u.kind.indirect_artillery || u.kind.gun || u.kind.armor) ==> {
            &&& u.kind.recon <==> role_of(card, u, rearguard) == UnitRole::Probe
            &&& u.kind.support_company && !u.kind.recon <==> role_of(card, u, rearguard) == UnitRole::Attached
        },
{
}

/// Whoever is damaged withdraws, the named rearguard covers, and a headquarters is
/// nothing else.
pub proof fn law_damage_and_the_rearguard_come_before_kind(card: CombatTactic, u: BattalionUnit, rearguard: Option<usize>)
    ensures
        u.kind.hq ==> role_of(card, u, rearguard) == UnitRole::Headquarters,
        !u.kind.hq && damaged(u) ==> role_of(card, u, rearguard) == UnitRole::Reserve,
        !u.kind.hq && !damaged(u) && rearguard == Some(u.id) ==> role_of(card, u, rearguard) == UnitRole::Rearguard,
{
}

/// What each card is out for, and that an outmatched side calls off exactly the
/// pushes into the enemy.
pub proof fn law_what_cards_are_out_for(card: CombatTactic)
    ensures
        card_objective(card) == StrategicObjective::DeepPenetration <==> card == CombatTactic::Blitz,
        card_objective(card) == StrategicObjective::Attrition <==> card == CombatTactic::OverwhelmingFire,
        card_objective(card) == StrategicObjective::ExploitGaps <==> card == CombatTactic::InfiltrationAssault,
        card_objective(card) == StrategicObjective::HitAndRun <==> card == CombatTactic::GuerrillaTactics,
        card_objective(card) == StrategicObjective::Pincer <==> card == CombatTactic::Encirclement,
        card_objective(card) == StrategicObjective::PushCenter <==> card == CombatTactic::MassCharge || card
            == CombatTactic::Assault || card == CombatTactic::RiverAssault,
        card_objective(card) == StrategicObjective::Hold <==> card == CombatTactic::Default || card
            == CombatTactic::Ambush || card == CombatTactic::UrbanDefense,
        card_objective(card) == StrategicObjective::Delay <==> card == CombatTactic::ElasticDefense || card
            == CombatTactic::TacticalWithdrawal || card == CombatTactic::Counterattack || card
            == CombatTactic::RiverDefense || card == CombatTactic::Delay,
        objective_of(card, false) == card_objective(card),
        objective_of(card, true) == if card == CombatTactic::Blitz || card == CombatTactic::InfiltrationAssault || card
            == CombatTactic::Encirclement || card == CombatTactic::MassCharge || card == CombatTactic::Assault || card
            == CombatTactic::RiverAssault {
            StrategicObjective::Hold
        } else {
            card_objective(card)
        },
{
}

/// Battalion `j` fights.
pub open spec fn fights(units: Seq<BattalionUnit>, j: int) -> bool {
    units[j].state == UnitState::Active && units[j].fit
}

/// Battalion `j` fights or flees.
pub open spec fn fights_or_flees(units: Seq<BattalionUnit>, j: int) -> bool {
    units[j].state == UnitState::Retreating || fights(units, j)
}

proof fn lemma_gap_to(units: Seq<BattalionUnit>, ok: spec_fn(BattalionUnit) -> bool, h: HexCoord)
    ensures
        forall|j: int| 0 <= j < units.len() && ok(#[trigger] units[j]) ==> gap_to(units, ok, h) <= hex_distance(
            h,
            units[j].position,
        ),
        gap_to(units, ok, h) == 0x7fff_ffff || exists|j: int|
            0 <= j < units.len() && ok(#[trigger] units[j]) && gap_to(units, ok, h) == hex_distance(h, units[j].position),
        gap_to(units, ok, h) <= 0x7fff_ffff,
    decreases units.len(),
{
    if units.len() > 0 {
        let t = units.drop_last();
        lemma_gap_to(t, ok, h);
        let n = units.len() - 1;
        assert(units.last() == units[n]);
        assert forall|j: int| 0 <= j < n implies t[j] == #[trigger] units[j] by {}
        if gap_to(t, ok, h) != 0x7fff_ffff {
            let j = choose|j: int|
                0 <= j < t.len() && ok(#[trigger] t[j]) && gap_to(t, ok, h) == hex_distance(h, t[j].position);
            assert(units[j] == t[j]);
        }
    }
}

/// The enemy is as near as the nearest battalion of it that fights; in fire those
/// in rout count as well. Without any it is farther than any map reaches.
#[verifier::rlimit(40)]
pub proof fn law_the_enemy_is_as_near_as_its_nearest(enemy: Seq<BattalionUnit>, h: HexCoord)
    ensures
        forall|j: int| 0 <= j < enemy.len() && #[trigger] fights(enemy, j) ==> enemy_distance(enemy, h) <= hex_distance(
            h,
            enemy[j].position,
        ),
        enemy_distance(enemy, h) == 0x7fff_ffff || exists|j: int|
            0 <= j < enemy.len() && #[trigger] fights(enemy, j) && enemy_distance(enemy, h) == hex_distance(
                h,
                enemy[j].position,
            ),
        forall|j: int|
            0 <= j < enemy.len() && #[trigger] fights_or_flees(enemy, j) ==> fire_distance(enemy, h) <= hex_distance(
                h,
                enemy[j].position,
            ),
        fire_distance(enemy, h) == 0x7fff_ffff || exists|j: int|
            0 <= j < enemy.len() && #[trigger] fights_or_flees(enemy, j) && fire_distance(enemy, h) == hex_distance(
                h,
                enemy[j].position,
            ),
{
    lemma_gap_to(enemy, fighting(), h);
    lemma_gap_to(enemy, drawing_fire(), h);
    assert forall|j: int| 0 <= j < enemy.len() && #[trigger] fights(enemy, j) implies enemy_distance(enemy, h)
        <= hex_distance(h, enemy[j].position) by {
        assert(fighting()(enemy[j]));
    }
    assert forall|j: int| 0 <= j < enemy.len() && #[trigger] fights_or_flees(enemy, j) implies fire_distance(enemy, h)
        <= hex_distance(h, enemy[j].position) by {
        assert(drawing_fire()(enemy[j]));
    }
    if enemy_distance(enemy, h) != 0x7fff_ffff {
        let j = choose|j: int|
            0 <= j < enemy.len() && fighting()(#[trigger] enemy[j]) && gap_to(enemy, fighting(), h) == hex_distance(
                h,
                enemy[j].position,
            );
        assert(fights(enemy, j));
    }
    if fire_distance(enemy, h) != 0x7fff_ffff {
        let j = choose|j: int|
            0 <= j < enemy.len() && drawing_fire()(#[trigger] enemy[j]) && gap_to(enemy, drawing_fire(), h)
                == hex_distance(h, enemy[j].position);
        assert(fights_or_flees(enemy, j));
    }
}

/// The nearest enemy stands where a fighting enemy stands than which none is nearer.
#[verifier::rlimit(40)]
pub proof fn law_the_nearest_enemy_is_nearest(enemy: Seq<BattalionUnit>, h: HexCoord) -> (i: int)
    ensures
        match nearest_enemy_hex(enemy, h) {
            Some(e) => {
                &&& 0 <= i < enemy.len() && fights(enemy, i) && e == enemy[i].position
                &&& forall|j: int|
                    0 <= j < enemy.len() && #[trigger] fights(enemy, j) ==> hex_distance(h, e) < hex_distance(
                        h,
                        enemy[j].position,
                    ) || (hex_distance(h, e) == hex_distance(h, enemy[j].position) && enemy[i].id <= enemy[j].id)
            },
            None => forall|j: int| 0 <= j < enemy.len() ==> !#[trigger] fights(enemy, j),
        },
{
    let keys = nearness_keys(enemy, h);
    law_least(keys);
    match least(keys) {
        Some(i) => {
            assert forall|j: int| 0 <= j < enemy.len() && #[trigger] fights(enemy, j) implies hex_distance(
                h,
                enemy[i].position,
            ) < hex_distance(h, enemy[j].position) || (hex_distance(h, enemy[i].position) == hex_distance(
                h,
                enemy[j].position,
            ) && enemy[i].id <= enemy[j].id) by {
                assert(keys[j] is Some);
            }
            i
        },
        None => {
            assert forall|j: int| 0 <= j < enemy.len() implies !#[trigger] fights(enemy, j) by {
                assert(keys[j] is None);
            }
            0
        },
    }
}

/// How many others of the enemy fight next to battalion `e`.
pub open spec fn helpers(enemy: Seq<BattalionUnit>, e: BattalionUnit) -> nat {
    enemy.filter(
        |o: BattalionUnit|
            o.state == UnitState::Active && o.fit && o.id != e.id && hex_distance(o.position, e.position) == 1,
    ).len()
}

proof fn lemma_helpers(enemy: Seq<BattalionUnit>, e: BattalionUnit)
    ensures
        support(enemy, e) == helpers(enemy, e),
{
    let f = supports(e);
    let g = |o: BattalionUnit|
        o.state == UnitState::Active && o.fit && o.id != e.id && hex_distance(o.position, e.position) == 1;
    assert(f =~= g);
    crate::geometry::law_matches_keep_their_order(enemy, f);
}

/// A battalion is supported by the others of its side that fight next to it.
pub proof fn law_support_is_by_fighting_neighbours(enemy: Seq<BattalionUnit>, e: BattalionUnit)
    ensures
        support(enemy, e) == helpers(enemy, e),
{
    lemma_helpers(enemy, e);
}

/// The most weakly held enemy has no more helpers than any other that fights, and
/// of such none is nearer.
#[verifier::rlimit(40)]
#[verifier::spinoff_prover]
pub proof fn law_the_most_isolated_enemy_has_least_help(enemy: Seq<BattalionUnit>, h: HexCoord) -> (i: int)
    requires
        enemy.len() <= usize::MAX,
    ensures
        match isolated_enemy_hex(enemy, h) {
            Some(e) => {
                &&& 0 <= i < enemy.len() && fights(enemy, i) && e == enemy[i].position
                &&& forall|j: int|
                    0 <= j < enemy.len() && #[trigger] fights(enemy, j) ==> {
                        ||| helpers(enemy, enemy[i]) < helpers(enemy, enemy[j])
                        ||| helpers(enemy, enemy[i]) == helpers(enemy, enemy[j]) && hex_distance(h, e) < hex_distance(
                            h,
                            enemy[j].position,
                        )
                        ||| helpers(enemy, enemy[i]) == helpers(enemy, enemy[j]) && hex_distance(h, e) == hex_distance(
                            h,
                            enemy[j].position,
                        ) && enemy[i].id <= enemy[j].id
                    }
            },
            None => forall|j: int| 0 <= j < enemy.len() ==> !#[trigger] fights(enemy, j),
        },
{
    let keys = isolation_keys(enemy, h);
    law_least(keys);
    match least(keys) {
        Some(i) => {
            lemma_helpers(enemy, enemy[i]);
            crate::pick::law_those_where(enemy, supports(enemy[i]));
            assert forall|j: int| 0 <= j < enemy.len() && #[trigger] fights(enemy, j) implies {
                ||| helpers(enemy, enemy[i]) < helpers(enemy, enemy[j])
                ||| helpers(enemy, enemy[i]) == helpers(enemy, enemy[j]) && hex_distance(h, enemy[i].position)
                    < hex_distance(h, enemy[j].position)
                ||| helpers(enemy, enemy[i]) == helpers(enemy, enemy[j]) && hex_distance(h, enemy[i].position)
                    == hex_distance(h, enemy[j].position) && enemy[i].id <= enemy[j].id
            } by {
                lemma_helpers(enemy, enemy[j]);
                crate::pick::law_those_where(enemy, supports(enemy[j]));
                assert(keys[j] is Some);
            }
            i
        },
        None => {
            assert forall|j: int| 0 <= j < enemy.len() implies !#[trigger] fights(enemy, j) by {
                assert(keys[j] is None);
            }
            0
        },
    }
}

/// Battalion `i` may cover a withdrawal: it fights, is undamaged and of the front
/// line, with a reach of one hex, and no support company.
pub open spec fn may_cover(own: Seq<BattalionUnit>, i: int) -> bool {
    fights(own, i) && !damaged(own[i]) && own[i].attack_range == 1 && !own[i].kind.support_company
}

/// The rearguard is the nearest to the enemy of those that may cover a withdrawal,
/// and of equally near ones the one with the least id.
#[verifier::rlimit(40)]
pub proof fn law_the_rearguard_is_the_nearest_to_the_enemy(own: Seq<BattalionUnit>, enemy: Seq<BattalionUnit>) -> (i: int)
    ensures
        match rearguard_of(own, enemy) {
            Some(id) => {
                &&& 0 <= i < own.len() && may_cover(own, i) && own[i].id == id
                &&& forall|j: int|
                    0 <= j < own.len() && #[trigger] may_cover(own, j) ==> {
                        ||| enemy_distance(enemy, own[i].position) < enemy_distance(enemy, own[j].position)
                        ||| enemy_distance(enemy, own[i].position) == enemy_distance(enemy, own[j].position) && id
                            <= own[j].id
                    }
            },
            None => forall|j: int| 0 <= j < own.len() ==> !#[trigger] may_cover(own, j),
        },
{
    let keys = rearguard_keys(own, enemy);
    law_least(keys);
    match least(keys) {
        Some(i) => {
            lemma_gap_to(enemy, fighting(), own[i].position);
            assert(enemy_distance(enemy, own[i].position) >= 0) by {
                lemma_gap_not_negative(enemy, own[i].position);
            }
            assert forall|j: int| 0 <= j < own.len() && #[trigger] may_cover(own, j) implies {
                ||| enemy_distance(enemy, own[i].position) < enemy_distance(enemy, own[j].position)
                ||| enemy_distance(enemy, own[i].position) == enemy_distance(enemy, own[j].position) && own[i].id
                    <= own[j].id
            } by {
                assert(keys[j] is Some);
                lemma_gap_to(enemy, fighting(), own[j].position);
                lemma_gap_not_negative(enemy, own[j].position);
            }
            i
        },
        None => {
            assert forall|j: int| 0 <= j < own.len() implies !#[trigger] may_cover(own, j) by {
                assert(keys[j] is None);
            }
            0
        },
    }
}

proof fn lemma_gap_not_negative(enemy: Seq<BattalionUnit>, h: HexCoord)
    ensures
        0 <= enemy_distance(enemy, h) <= 0x7fff_ffff,
{
    lemma_gap_to(enemy, fighting(), h);
    if enemy_distance(enemy, h) != 0x7fff_ffff {
        let j = choose|j: int|
            0 <= j < enemy.len() && fighting()(#[trigger] enemy[j]) && gap_to(enemy, fighting(), h) == hex_distance(
                h,
                enemy[j].position,
            );
        assert(hex_distance(h, enemy[j].position) >= 0);
    }
}

} // verus!
