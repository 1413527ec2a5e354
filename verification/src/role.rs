//! The first two layers of a turn's plan: the objective that the tactic card
//! sets, and the role that it gives to each battalion.
use vstd::prelude::*;
use crate::pick::{find_least, least, Key};
use crate::tactic::CombatTactic;
use crate::turn::{enemy_distance, min_enemy_dist};
use crate::unit::BattalionUnit;

verus! {

/// The goal of a turn.
#[derive(Debug, Clone, Copy, PartialEq, Eq, Structural)]
pub enum StrategicObjective {
    PushCenter,
    Hold,
    FlankLeft,
    FlankRight,
    Delay,
    DeepPenetration,
    Attrition,
    HitAndRun,
    Pincer,
    ExploitGaps,
}

/// What a battalion is to do in a turn.
#[derive(Debug, Clone, Copy, PartialEq, Eq, Structural)]
pub enum UnitRole {
    /// Seek and assault the enemy.
    Assault,
    /// Give fire support from behind the front.
    SupportFire,
    /// Hold the line.
    HoldPosition,
    /// Swing round a flank.
    Flank,
    /// Probe the far flanks.
    Probe,
    /// Damaged: withdraw from the front.
    Reserve,
    /// Stay near the battalion that it supports.
    Attached,
    /// Hold the front alone while the others withdraw.
    Rearguard,
    /// Shadow the division and keep off the front.
    Headquarters,
}

/// Below this share of organisation, 0.30 by its bit pattern, a battalion is
/// damaged.
pub const DAMAGED_ORG_RATIO: u32 = 0x3e99_999a;

/// The objective that a card sets.
pub open spec fn card_objective(tactic: CombatTactic) -> StrategicObjective {
    match tactic {
        CombatTactic::Blitz => StrategicObjective::DeepPenetration,
        CombatTactic::ElasticDefense => StrategicObjective::Delay,
        CombatTactic::OverwhelmingFire => StrategicObjective::Attrition,
        CombatTactic::InfiltrationAssault => StrategicObjective::ExploitGaps,
        CombatTactic::MassCharge => StrategicObjective::PushCenter,
        CombatTactic::GuerrillaTactics => StrategicObjective::HitAndRun,
        CombatTactic::TacticalWithdrawal => StrategicObjective::Delay,
        CombatTactic::Encirclement => StrategicObjective::Pincer,
        CombatTactic::Default => StrategicObjective::Hold,
        CombatTactic::Counterattack => StrategicObjective::Delay,
        CombatTactic::Ambush => StrategicObjective::Hold,
        CombatTactic::RiverDefense => StrategicObjective::Delay,
        CombatTactic::UrbanDefense => StrategicObjective::Hold,
        CombatTactic::Delay => StrategicObjective::Delay,
        CombatTactic::Assault => StrategicObjective::PushCenter,
        CombatTactic::RiverAssault => StrategicObjective::PushCenter,
    }
}

/// The objectives that push into the enemy.
pub open spec fn aggressive(o: StrategicObjective) -> bool {
    ||| o == StrategicObjective::DeepPenetration
    ||| o == StrategicObjective::PushCenter
    ||| o == StrategicObjective::Pincer
    ||| o == StrategicObjective::ExploitGaps
}

/// The objective of a turn: an outmatched side does not push but holds.
pub open spec fn objective_of(tactic: CombatTactic, outmatched: bool) -> StrategicObjective {
    if aggressive(card_objective(tactic)) && outmatched {
        StrategicObjective::Hold
    } else {
        card_objective(tactic)
    }
}

/// The objective of a turn. `outmatched` says whether the enemy's power is
/// more than three times the side's own.
pub fn select_objective(tactic: CombatTactic, outmatched: bool) -> (o: StrategicObjective)
    ensures
        o == objective_of(tactic, outmatched),
{
    let base = match tactic {
        CombatTactic::Blitz => StrategicObjective::DeepPenetration,
        CombatTactic::ElasticDefense => StrategicObjective::Delay,
        CombatTactic::OverwhelmingFire => StrategicObjective::Attrition,
        CombatTactic::InfiltrationAssault => StrategicObjective::ExploitGaps,
        CombatTactic::MassCharge => StrategicObjective::PushCenter,
        CombatTactic::GuerrillaTactics => StrategicObjective::HitAndRun,
        CombatTactic::TacticalWithdrawal => StrategicObjective::Delay,
        CombatTactic::Encirclement => StrategicObjective::Pincer,
        CombatTactic::Default => StrategicObjective::Hold,
        CombatTactic::Counterattack => StrategicObjective::Delay,
        CombatTactic::Ambush => StrategicObjective::Hold,
        CombatTactic::RiverDefense => StrategicObjective::Delay,
        CombatTactic::UrbanDefense => StrategicObjective::Hold,
        CombatTactic::Delay => StrategicObjective::Delay,
        CombatTactic::Assault => StrategicObjective::PushCenter,
        CombatTactic::RiverAssault => StrategicObjective::PushCenter,
    };
    let pushes = base == StrategicObjective::DeepPenetration || base == StrategicObjective::PushCenter
        || base == StrategicObjective::Pincer || base == StrategicObjective::ExploitGaps;
    if pushes && outmatched {
        StrategicObjective::Hold
    } else {
        base
    }
}

/// The role that a card gives to armour: it rides round the flanks of an
/// encirclement or an elastic defence, holds with a withdrawal or a barrage,
/// and assaults otherwise.
pub open spec fn armor_role(tactic: CombatTactic) -> UnitRole {
    match tactic {
        CombatTactic::Encirclement => UnitRole::Flank,
        CombatTactic::ElasticDefense => UnitRole::Flank,
        CombatTactic::TacticalWithdrawal => UnitRole::HoldPosition,
        CombatTactic::OverwhelmingFire => UnitRole::HoldPosition,
        _ => UnitRole::Assault,
    }
}

/// The cards under which line infantry advances and assaults.
pub open spec fn infantry_assaults(tactic: CombatTactic) -> bool {
    ||| tactic == CombatTactic::MassCharge
    ||| tactic == CombatTactic::InfiltrationAssault
    ||| tactic == CombatTactic::GuerrillaTactics
    ||| tactic == CombatTactic::Assault
    ||| tactic == CombatTactic::RiverAssault
}

/// The role of a battalion: a headquarters shadows its division even when it
/// is damaged, other damaged battalions withdraw, and the rest go by their
/// kind and the card.
pub open spec fn role_of(tactic: CombatTactic, u: BattalionUnit, rearguard: Option<usize>) -> UnitRole {
    if u.kind.hq {
        UnitRole::Headquarters
    } else if u.org_ratio < DAMAGED_ORG_RATIO {
        UnitRole::Reserve
    } else if rearguard == Some(u.id) {
        UnitRole::Rearguard
    } else if u.kind.indirect_artillery || u.kind.gun {
        UnitRole::SupportFire
    } else if u.kind.armor {
        armor_role(tactic)
    } else if u.kind.recon {
        UnitRole::Probe
    } else if u.kind.support_company {
        UnitRole::Attached
    } else if infantry_assaults(tactic) || (u.kind.motorized && tactic == CombatTactic::Blitz) {
        UnitRole::Assault
    } else {
        UnitRole::HoldPosition
    }
}

/// The role of a battalion.
pub fn assign_role(tactic: CombatTactic, unit: &BattalionUnit, rearguard_id: Option<usize>) -> (r: UnitRole)
    ensures
        r == role_of(tactic, *unit, rearguard_id),
{
    if unit.kind.hq {
        return UnitRole::Headquarters;
    }
    if unit.org_ratio < DAMAGED_ORG_RATIO {
        return UnitRole::Reserve;
    }
    if let Some(id) = rearguard_id {
        if id == unit.id {
            return UnitRole::Rearguard;
        }
    }
    if unit.kind.indirect_artillery || unit.kind.gun {
        return UnitRole::SupportFire;
    }
    if unit.kind.armor {
        return match tactic {
            CombatTactic::Encirclement => UnitRole::Flank,
            CombatTactic::ElasticDefense => UnitRole::Flank,
            CombatTactic::TacticalWithdrawal => UnitRole::HoldPosition,
            CombatTactic::OverwhelmingFire => UnitRole::HoldPosition,
            _ => UnitRole::Assault,
        };
    }
    if unit.kind.recon {
        return UnitRole::Probe;
    }
    if unit.kind.support_company {
        return UnitRole::Attached;
    }
    match tactic {
        CombatTactic::MassCharge => UnitRole::Assault,
        CombatTactic::InfiltrationAssault => UnitRole::Assault,
        CombatTactic::GuerrillaTactics => UnitRole::Assault,
        CombatTactic::Assault => UnitRole::Assault,
        CombatTactic::RiverAssault => UnitRole::Assault,
        CombatTactic::Blitz => if unit.kind.motorized {
            UnitRole::Assault
        } else {
            UnitRole::HoldPosition
        },
        _ => UnitRole::HoldPosition,
    }
}

/// The battalions that may be the rearguard, ranked by nearness to the enemy,
/// then by id: healthy close-combat battalions of the front line.
pub open spec fn rearguard_keys(own: Seq<BattalionUnit>, enemy: Seq<BattalionUnit>) -> Seq<Option<Key>> {
    Seq::new(
        own.len(),
        |i: int|
            if own[i].effective() && own[i].org_ratio >= DAMAGED_ORG_RATIO && own[i].attack_range == 1
                && !own[i].kind.support_company {
                Some(
                    Key {
                        a: enemy_distance(enemy, own[i].position) as i128,
                        b: own[i].id as i128,
                        c: 0,
                        d: 0,
                    },
                )
            } else {
                None
            },
    )
}

/// The rearguard of a withdrawal.
pub open spec fn rearguard_of(own: Seq<BattalionUnit>, enemy: Seq<BattalionUnit>) -> Option<usize> {
    match least(rearguard_keys(own, enemy)) {
        Some(i) => Some(own[i].id),
        None => None,
    }
}

/// The rearguard of a withdrawal: the healthy close-combat battalion of the
/// front line that is nearest to the enemy.
pub fn pick_rearguard(own: &Vec<BattalionUnit>, enemy: &Vec<BattalionUnit>) -> (id: Option<usize>)
    ensures
        id == rearguard_of(own@, enemy@),
{
    let mut keys: Vec<Option<Key>> = Vec::new();
    let mut i: usize = 0;
    while i < own.len()
        invariant
            i <= own@.len(),
            keys@ =~= rearguard_keys(own@, enemy@).take(i as int),
        decreases own@.len() - i,
    {
        if own[i].is_combat_effective() && own[i].org_ratio >= DAMAGED_ORG_RATIO
            && own[i].attack_range == 1 && !own[i].kind.support_company {
            let d: i64 = min_enemy_dist(own[i].position, enemy);
            keys.push(Some(Key { a: d as i128, b: own[i].id as i128, c: 0, d: 0 }));
        } else {
            keys.push(None);
        }
        i += 1;
    }
    assert(keys@ =~= rearguard_keys(own@, enemy@));
    match find_least(&keys) {
        Some(k) => Some(own[k].id),
        None => None,
    }
}

/// A defensive card is never downgraded, a pushing one exactly when the side
/// is outmatched, and then to a hold.
pub proof fn law_only_pushes_are_called_off(tactic: CombatTactic)
    ensures
        objective_of(tactic, false) == card_objective(tactic),
        !aggressive(card_objective(tactic)) ==> objective_of(tactic, true) == card_objective(tactic),
        aggressive(card_objective(tactic)) ==> objective_of(tactic, true) == StrategicObjective::Hold,
{
}

/// A headquarters shadows its division whatever its condition, exactly the
/// other damaged battalions withdraw, and only the rearguard is the rearguard.
pub proof fn law_roles_follow_condition(tactic: CombatTactic, u: BattalionUnit, rearguard: Option<usize>)
    ensures
        u.kind.hq <==> role_of(tactic, u, rearguard) == UnitRole::Headquarters,
        !u.kind.hq && u.org_ratio < DAMAGED_ORG_RATIO <==> role_of(tactic, u, rearguard)
            == UnitRole::Reserve,
        role_of(tactic, u, rearguard) == UnitRole::Rearguard ==> rearguard == Some(u.id),
{
}

} // verus!
