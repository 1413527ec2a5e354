//! The fire phase, first part: what the registered attack orders come to.
//!
//! Orders are only registered during a turn. At its end they are held against
//! the field as it then is: each of them is dropped, fizzles, joins a volley or
//! becomes a fire mission, and each engaged defender may reply.
use vstd::prelude::*;
use crate::hex::{hex_distance, HexCoord};
use crate::pick::{first_where, indices, law_winner_matches, those_where, winner};
use crate::retreat::{find_unit, unit_index};
use crate::unit::BattalionUnit;

verus! {

/// What a registered attack is aimed at.
#[derive(Debug, Clone, Copy, PartialEq, Eq, Structural)]
pub enum AttackTarget {
    /// Close combat with an adjacent battalion; the attacker occupies the hex
    /// if the defender breaks.
    Assault(usize),
    /// Ranged direct fire at a battalion.
    DirectFire(usize),
    /// An indirect fire mission on a hex: precise fire singles out the enemy
    /// on the hex; area fire strikes the hex and its neighbours, friend and
    /// foe. Rockets always fire at the area.
    FireMission { hex: HexCoord, precise: bool },
}

/// A registered attack order.
#[derive(Debug, Clone, Copy, PartialEq, Eq, Structural)]
pub struct AttackOrder {
    pub attacker: usize,
    pub target: AttackTarget,
}

/// What came of one attack. Damage is given by bit patterns.
#[derive(Debug, Clone, Copy, PartialEq, Eq, Default, Structural)]
pub struct CombatResult {
    pub attacker_id: usize,
    pub defender_id: usize,
    /// The hex that was fought over.
    pub hex: HexCoord,
    pub org_damage_dealt: u32,
    pub str_damage_dealt: u32,
    pub org_damage_taken: u32,
    pub str_damage_taken: u32,
    /// The defender's organisation is gone and it retreats.
    pub defender_broken: bool,
    /// The assaulting battalion moved into the vacated hex.
    pub advanced: bool,
    /// The defender broke while fully encircled.
    pub surrendered: bool,
    /// The defender's strength is wiped out.
    pub eliminated: bool,
    pub shocked_defender: bool,
    pub shocked_attacker: bool,
    /// The order fizzled: its target was gone or out of reach.
    pub target_lost: bool,
}

/// One attacker's part in the volley on a battalion, by indices.
#[derive(Debug, Clone, Copy, PartialEq, Eq, Structural)]
pub struct Engagement {
    pub attacker: usize,
    pub target: usize,
    pub distance: i64,
    pub assault: bool,
}

/// What part of its strength a strike has.
#[derive(Debug, Clone, Copy, PartialEq, Eq, Structural)]
pub enum Share {
    Full,
    /// Area fire on the aim hex.
    Centre,
    /// Area fire on a neighbour of the aim hex.
    Neighbor,
}

/// One strike of a fire mission, by indices.
#[derive(Debug, Clone, Copy, PartialEq, Eq, Structural)]
pub struct Strike {
    pub attacker: usize,
    pub target: usize,
    pub distance: i64,
    pub share: Share,
}

/// An attack to be reported on: who struck whom, and where.
#[derive(Debug, Clone, Copy, PartialEq, Eq, Structural)]
pub struct Lane {
    pub attacker: usize,
    pub defender: usize,
    pub hex: HexCoord,
}

/// A defender that may reply to an attacker.
#[derive(Debug, Clone, Copy, PartialEq, Eq, Structural)]
pub struct Counter {
    pub defender: usize,
    pub attacker: usize,
    pub distance: i64,
}

/// A reply that is fired: the defender's firepower is split evenly over all
/// the attackers that it replies to.
#[derive(Debug, Clone, Copy, PartialEq, Eq, Structural)]
pub struct CounterStrike {
    pub defender: usize,
    pub attacker: usize,
    pub distance: i64,
    pub split: usize,
}

/// The rules' numbers that decide, as opposed to those that only scale damage.
#[derive(Debug, Clone, Copy, PartialEq, Eq, Structural)]
pub struct CombatParams {
    /// How far guns reply over open sights.
    pub counter_direct_lay_range: i64,
    /// How long a launcher reloads after a salvo.
    pub rocket_fire_cooldown_turns: i64,
    /// How many consecutive turns out of bounds end in leaving the battle.
    pub oob_leaving_turns: u32,
}

/// What the orders come to.
#[derive(Debug, PartialEq, Eq)]
pub struct FirePlan {
    /// The orders that fizzled.
    pub lost: Vec<CombatResult>,
    pub engagements: Vec<Engagement>,
    pub strikes: Vec<Strike>,
    pub lanes: Vec<Lane>,
    pub counters: Vec<Counter>,
}

/// What the orders come to, and the battalions then.
#[verifier::ext_equal]
pub struct PlanView {
    pub lost: Seq<CombatResult>,
    pub engagements: Seq<Engagement>,
    pub strikes: Seq<Strike>,
    pub lanes: Seq<Lane>,
    pub counters: Seq<Counter>,
    pub units: Seq<BattalionUnit>,
}

impl FirePlan {
    /// The plan together with the battalions.
    pub open spec fn with_units(&self, units: Seq<BattalionUnit>) -> PlanView {
        PlanView {
            lost: self.lost@,
            engagements: self.engagements@,
            strikes: self.strikes@,
            lanes: self.lanes@,
            counters: self.counters@,
            units,
        }
    }
}

/// The report on an order that fizzled.
pub open spec fn fizzled(attacker_id: usize, defender_id: usize, hex: HexCoord) -> CombatResult {
    CombatResult {
        attacker_id,
        defender_id,
        hex,
        org_damage_dealt: 0,
        str_damage_dealt: 0,
        org_damage_taken: 0,
        str_damage_taken: 0,
        defender_broken: false,
        advanced: false,
        surrendered: false,
        eliminated: false,
        shocked_defender: false,
        shocked_attacker: false,
        target_lost: true,
    }
}

fn fizzle(attacker_id: usize, defender_id: usize, hex: HexCoord) -> (r: CombatResult)
    ensures
        r == fizzled(attacker_id, defender_id, hex),
{
    CombatResult {
        attacker_id,
        defender_id,
        hex,
        org_damage_dealt: 0,
        str_damage_dealt: 0,
        org_damage_taken: 0,
        str_damage_taken: 0,
        defender_broken: false,
        advanced: false,
        surrendered: false,
        eliminated: false,
        shocked_defender: false,
        shocked_attacker: false,
        target_lost: true,
    }
}

/// How far a defender replies: a launcher and a limbered gun never do,
/// indirect artillery over open sights only, and all others within their own
/// range.
pub open spec fn reply_range(p: CombatParams, d: BattalionUnit) -> int {
    if d.kind.rocket || d.limbered() {
        0
    } else if d.kind.indirect_artillery {
        p.counter_direct_lay_range as int
    } else {
        d.attack_range as int
    }
}

/// The reply that an attack from `distance` draws.
pub open spec fn reply(
    p: CombatParams,
    units: Seq<BattalionUnit>,
    defender: int,
    attacker: int,
    distance: int,
) -> Seq<Counter> {
    if distance <= reply_range(p, units[defender]) {
        seq![
            Counter {
                defender: defender as usize,
                attacker: attacker as usize,
                distance: distance as i64,
            },
        ]
    } else {
        Seq::empty()
    }
}

/// A battalion may carry out an order: it fights, is not shocked and may
/// attack, and may assault if that is its order.
pub open spec fn may_carry_out(a: BattalionUnit, target: AttackTarget) -> bool {
    a.effective() && !a.shocked && a.can_attack_order && (target is Assault ==> a.can_assault)
}

/// The plan with one more engagement of battalion `a` with battalion `d`, or
/// with a fizzled order where the target is out of reach, behind a ridge or
/// gone.
pub open spec fn engaged(
    pl: PlanView,
    p: CombatParams,
    a: int,
    d: int,
    assault: bool,
    sees: bool,
) -> PlanView {
    let units = pl.units;
    let hex = units[d].position;
    let distance = hex_distance(units[a].position, hex);
    let reachable = if assault {
        distance == 1
    } else {
        1 <= distance <= units[a].attack_range
    };
    let ridge_blocked = !assault && distance > 1 && !units[a].kind.indirect_artillery && !sees;
    if !reachable || ridge_blocked || !units[d].targetable() {
        PlanView { lost: pl.lost.push(fizzled(units[a].id, units[d].id, hex)), ..pl }
    } else {
        PlanView {
            engagements: pl.engagements.push(
                Engagement {
                    attacker: a as usize,
                    target: d as usize,
                    distance: distance as i64,
                    assault,
                },
            ),
            lanes: pl.lanes.push(Lane { attacker: a as usize, defender: d as usize, hex }),
            counters: pl.counters + reply(p, units, d, a, distance),
            ..pl
        }
    }
}

/// The enemies of battalion `a` on a hex or next to it.
pub open spec fn enemy_in_zone(units: Seq<BattalionUnit>, a: int, hex: HexCoord) -> spec_fn(usize) -> bool {
    |j: usize|
        {
            &&& units[j as int].side != units[a].side
            &&& hex_distance(units[j as int].position, hex) <= 1
            &&& units[j as int].targetable()
        }
}

/// The battalions that area fire on a hex strikes: all on it or next to it,
/// friend and foe; a battery never shells itself, a salvo spares no one.
pub open spec fn in_zone(units: Seq<BattalionUnit>, a: int, hex: HexCoord) -> spec_fn(usize) -> bool {
    |j: usize|
        {
            &&& units[a].kind.rocket || j != a
            &&& hex_distance(units[j as int].position, hex) <= 1
            &&& units[j as int].targetable()
        }
}

/// The victims of area fire, by index.
pub open spec fn victims(units: Seq<BattalionUnit>, a: int, hex: HexCoord) -> Seq<usize> {
    those_where(indices(units.len()), in_zone(units, a, hex))
}

/// The enemy that stands on the aim hex.
pub open spec fn aimed_at(units: Seq<BattalionUnit>, a: int, hex: HexCoord) -> Option<int> {
    first_where(
        indices(units.len()),
        |j: usize| enemy_in_zone(units, a, hex)(j) && units[j as int].position == hex,
    )
}

/// The enemy that answers an area mission: the one on the aim hex, or else the
/// best organised in the zone.
pub open spec fn answering(units: Seq<BattalionUnit>, a: int, hex: HexCoord) -> Option<int> {
    match aimed_at(units, a, hex) {
        Some(j) => Some(j),
        None => winner(
            indices(units.len()),
            enemy_in_zone(units, a, hex),
            |x: usize, y: usize| units[x as int].org >= units[y as int].org,
        ),
    }
}

/// What part of its strength area fire has on a victim.
pub open spec fn area_share(units: Seq<BattalionUnit>, a: int, hex: HexCoord, j: int) -> Share {
    if units[a].kind.rocket {
        Share::Full
    } else if units[j].position == hex {
        Share::Centre
    } else {
        Share::Neighbor
    }
}

/// The strike of area fire on a victim.
pub open spec fn area_strike(units: Seq<BattalionUnit>, a: int, hex: HexCoord) -> spec_fn(usize) -> Strike {
    |j: usize|
        Strike {
            attacker: a as usize,
            target: j,
            distance: hex_distance(units[a].position, units[j as int].position) as i64,
            share: area_share(units, a, hex, j as int),
        }
}

/// The report lane of area fire on a victim.
pub open spec fn area_lane(units: Seq<BattalionUnit>, a: int) -> spec_fn(usize) -> Lane {
    |j: usize| Lane { attacker: a as usize, defender: j, hex: units[j as int].position }
}

/// The plan with a fire mission that fizzled.
pub open spec fn missed(pl: PlanView, a: int, hex: HexCoord) -> PlanView {
    PlanView { lost: pl.lost.push(fizzled(pl.units[a].id, 0, hex)), ..pl }
}

/// The plan with precise fire at the enemy `d` on a hex.
pub open spec fn fired_at(pl: PlanView, p: CombatParams, a: int, hex: HexCoord, d: int) -> PlanView {
    let distance = hex_distance(pl.units[a].position, hex);
    PlanView {
        strikes: pl.strikes.push(
            Strike {
                attacker: a as usize,
                target: d as usize,
                distance: distance as i64,
                share: Share::Full,
            },
        ),
        lanes: pl.lanes.push(Lane { attacker: a as usize, defender: d as usize, hex }),
        counters: pl.counters + reply(p, pl.units, d, a, distance),
        ..pl
    }
}

/// The plan with area fire on a hex; a launcher reloads after its salvo.
pub open spec fn shelled(pl: PlanView, p: CombatParams, a: int, hex: HexCoord) -> PlanView {
    let units = pl.units;
    let u = units[a];
    PlanView {
        strikes: pl.strikes + victims(units, a, hex).map_values(area_strike(units, a, hex)),
        lanes: pl.lanes + victims(units, a, hex).map_values(area_lane(units, a)),
        counters: match answering(units, a, hex) {
            Some(d) => pl.counters + reply(p, units, d, a, hex_distance(u.position, hex)),
            None => pl.counters,
        },
        units: if u.kind.rocket {
            units.update(a, BattalionUnit { fire_cooldown: p.rocket_fire_cooldown_turns, ..u })
        } else {
            units
        },
        ..pl
    }
}

/// The plan with a fire mission of battalion `a` on a hex: it fizzles where the
/// battalion cannot fire there or nobody is struck.
pub open spec fn fired(
    pl: PlanView,
    p: CombatParams,
    a: int,
    hex: HexCoord,
    precise: bool,
) -> PlanView {
    let units = pl.units;
    let u = units[a];
    let distance = hex_distance(u.position, hex);
    if distance == 0 || distance < u.min_attack_range || distance > u.attack_range
        || !u.fires_support() {
        missed(pl, a, hex)
    } else if precise && !u.kind.rocket {
        match aimed_at(units, a, hex) {
            Some(d) => fired_at(pl, p, a, hex, d),
            None => missed(pl, a, hex),
        }
    } else if victims(units, a, hex).len() == 0 {
        missed(pl, a, hex)
    } else {
        shelled(pl, p, a, hex)
    }
}

/// The plan with one more order; `sees` says whether the attacker has a line
/// of sight to its target.
pub open spec fn ordered(pl: PlanView, p: CombatParams, order: AttackOrder, sees: bool) -> PlanView {
    match unit_index(pl.units, order.attacker) {
        None => pl,
        Some(a) => if !may_carry_out(pl.units[a], order.target) {
            pl
        } else {
            match order.target {
                AttackTarget::Assault(id) => match unit_index(pl.units, id) {
                    Some(d) => engaged(pl, p, a, d, true, sees),
                    None => pl,
                },
                AttackTarget::DirectFire(id) => match unit_index(pl.units, id) {
                    Some(d) => engaged(pl, p, a, d, false, sees),
                    None => pl,
                },
                AttackTarget::FireMission { hex, precise } => fired(pl, p, a, hex, precise),
            }
        },
    }
}

/// The plan before any order.
pub open spec fn no_orders(units: Seq<BattalionUnit>) -> PlanView {
    PlanView {
        lost: Seq::empty(),
        engagements: Seq::empty(),
        strikes: Seq::empty(),
        lanes: Seq::empty(),
        counters: Seq::empty(),
        units,
    }
}

/// What the orders come to, taken one after the other.
pub open spec fn planned(
    units: Seq<BattalionUnit>,
    p: CombatParams,
    orders: Seq<AttackOrder>,
    sight: Seq<bool>,
) -> PlanView
    decreases orders.len(),
{
    if orders.len() == 0 {
        no_orders(units)
    } else {
        ordered(
            planned(units, p, orders.drop_last(), sight),
            p,
            orders.last(),
            sight[orders.len() - 1],
        )
    }
}

fn add_counter(
    counters: &mut Vec<Counter>,
    p: CombatParams,
    units: &Vec<BattalionUnit>,
    d: usize,
    a: usize,
    distance: i64,
)
    requires
        d < units@.len(),
    ensures
        final(counters)@ == old(counters)@ + reply(p, units@, d as int, a as int, distance as int),
{
    let u = units[d];
    let range: i64 = if u.kind.rocket || (u.kind.towed && !u.is_emplaced) {
        0
    } else if u.kind.indirect_artillery {
        p.counter_direct_lay_range
    } else {
        u.attack_range
    };
    if distance <= range {
        counters.push(Counter { defender: d, attacker: a, distance });
    }
}

/// The plan with one more engagement.
fn engage(
    plan: &mut FirePlan,
    p: CombatParams,
    units: &Vec<BattalionUnit>,
    a: usize,
    d: usize,
    assault: bool,
    sees: bool,
)
    requires
        a < units@.len(),
        d < units@.len(),
    ensures
        final(plan).with_units(units@) == engaged(
            old(plan).with_units(units@),
            p,
            a as int,
            d as int,
            assault,
            sees,
        ),
{
    let hex = units[d].position;
    let distance: i64 = units[a].position.distance(hex);
    let reachable = if assault {
        distance == 1
    } else {
        1 <= distance && distance <= units[a].attack_range
    };
    let ridge_blocked = !assault && distance > 1 && !units[a].kind.indirect_artillery && !sees;
    if !reachable || ridge_blocked || !units[d].is_targetable() {
        plan.lost.push(fizzle(units[a].id, units[d].id, hex));
    } else {
        plan.engagements.push(Engagement { attacker: a, target: d, distance, assault });
        plan.lanes.push(Lane { attacker: a, defender: d, hex });
        add_counter(&mut plan.counters, p, units, d, a, distance);
    }
}

fn in_enemy_zone(units: &Vec<BattalionUnit>, a: usize, hex: HexCoord, j: usize) -> (b: bool)
    requires
        a < units@.len(),
        j < units@.len(),
    ensures
        b == enemy_in_zone(units@, a as int, hex)(j),
{
    units[j].side != units[a].side && units[j].position.distance(hex) <= 1 && units[j].is_targetable()
}

/// The enemy that stands on the aim hex.
fn aimed_enemy(units: &Vec<BattalionUnit>, a: usize, hex: HexCoord) -> (found: Option<usize>)
    requires
        a < units@.len(),
    ensures
        match found {
            Some(j) => aimed_at(units@, a as int, hex) == Some(j as int) && j < units@.len(),
            None => aimed_at(units@, a as int, hex) is None,
        },
{
    let ghost all = indices(units@.len());
    let ghost ok = |j: usize| enemy_in_zone(units@, a as int, hex)(j) && units@[j as int].position == hex;
    let mut j: usize = 0;
    while j < units.len()
        invariant
            a < units@.len(),
            j <= units@.len(),
            all == indices(units@.len()),
            ok == (|j: usize|
                enemy_in_zone(units@, a as int, hex)(j) && units@[j as int].position == hex),
            forall|k: int| 0 <= k < j ==> !ok(#[trigger] all[k]),
        decreases units@.len() - j,
    {
        assert(all[j as int] == j);
        if in_enemy_zone(units, a, hex, j) && units[j].position == hex {
            proof {
                crate::pick::law_first_where(all, ok);
                assert(ok(all[j as int]));
            }
            return Some(j);
        }
        j += 1;
    }
    proof {
        crate::pick::law_first_where(all, ok);
    }
    None
}

/// The enemy that answers an area mission.
fn answering_enemy(units: &Vec<BattalionUnit>, a: usize, hex: HexCoord) -> (found: Option<usize>)
    requires
        a < units@.len(),
    ensures
        match found {
            Some(j) => answering(units@, a as int, hex) == Some(j as int) && j < units@.len(),
            None => answering(units@, a as int, hex) is None,
        },
{
    let aimed = aimed_enemy(units, a, hex);
    if aimed.is_some() {
        return aimed;
    }
    let ghost all = indices(units@.len());
    let ghost ok = enemy_in_zone(units@, a as int, hex);
    let ghost beats = |x: usize, y: usize| units@[x as int].org >= units@[y as int].org;
    let mut best: Option<usize> = None;
    let mut j: usize = 0;
    assert(all.take(0) =~= Seq::<usize>::empty());
    while j < units.len()
        invariant
            a < units@.len(),
            j <= units@.len(),
            all == indices(units@.len()),
            ok == enemy_in_zone(units@, a as int, hex),
            beats == (|x: usize, y: usize| units@[x as int].org >= units@[y as int].org),
            match best {
                Some(b) => b < j && winner(all.take(j as int), ok, beats) == Some(b as int),
                None => winner(all.take(j as int), ok, beats) is None,
            },
        decreases units@.len() - j,
    {
        proof {
            assert(all.take(j + 1).drop_last() =~= all.take(j as int));
            assert(all.take(j + 1).last() == j);
            if let Some(b) = best {
                assert(all[b as int] == b);
                assert(all.take(j + 1)[b as int] == b);
            }
        }
        if in_enemy_zone(units, a, hex, j) {
            best = match best {
                Some(b) => if units[j].org >= units[b].org {
                    Some(j)
                } else {
                    Some(b)
                },
                None => Some(j),
            };
        }
        j += 1;
    }
    assert(all.take(units@.len() as int) =~= all);
    best
}

/// The victims of area fire.
fn area_victims(units: &Vec<BattalionUnit>, a: usize, hex: HexCoord) -> (v: Vec<usize>)
    requires
        a < units@.len(),
    ensures
        v@ == victims(units@, a as int, hex),
        forall|k: int| 0 <= k < v@.len() ==> #[trigger] v@[k] < units@.len(),
{
    let ghost all = indices(units@.len());
    let ghost ok = in_zone(units@, a as int, hex);
    let mut v: Vec<usize> = Vec::new();
    let mut j: usize = 0;
    assert(all.take(0) =~= Seq::<usize>::empty());
    while j < units.len()
        invariant
            a < units@.len(),
            j <= units@.len(),
            all == indices(units@.len()),
            ok == in_zone(units@, a as int, hex),
            v@ == those_where(all.take(j as int), ok),
            forall|k: int| 0 <= k < v@.len() ==> #[trigger] v@[k] < units@.len(),
        decreases units@.len() - j,
    {
        proof {
            assert(all.take(j + 1).drop_last() =~= all.take(j as int));
            assert(all.take(j + 1).last() == j);
        }
        if (units[a].kind.rocket || j != a) && units[j].position.distance(hex) <= 1
            && units[j].is_targetable() {
            v.push(j);
        }
        j += 1;
    }
    assert(all.take(units@.len() as int) =~= all);
    v
}

/// Adds the strikes and lanes of area fire to the plan.
fn strike_area(
    plan: &mut FirePlan,
    units: &Vec<BattalionUnit>,
    a: usize,
    hex: HexCoord,
    v: &Vec<usize>,
)
    requires
        a < units@.len(),
        forall|k: int| 0 <= k < v@.len() ==> #[trigger] v@[k] < units@.len(),
    ensures
        final(plan).strikes@ == old(plan).strikes@ + v@.map_values(
            area_strike(units@, a as int, hex),
        ),
        final(plan).lanes@ == old(plan).lanes@ + v@.map_values(area_lane(units@, a as int)),
        final(plan).lost@ == old(plan).lost@,
        final(plan).engagements@ == old(plan).engagements@,
        final(plan).counters@ == old(plan).counters@,
{
    let ghost strike = area_strike(units@, a as int, hex);
    let ghost lane = area_lane(units@, a as int);
    let mut k: usize = 0;
    assert(v@.take(0).map_values(strike) =~= Seq::<Strike>::empty());
    assert(v@.take(0).map_values(lane) =~= Seq::<Lane>::empty());
    while k < v.len()
        invariant
            a < units@.len(),
            k <= v@.len(),
            forall|k: int| 0 <= k < v@.len() ==> #[trigger] v@[k] < units@.len(),
            strike == area_strike(units@, a as int, hex),
            lane == area_lane(units@, a as int),
            plan.strikes@ == old(plan).strikes@ + v@.take(k as int).map_values(strike),
            plan.lanes@ == old(plan).lanes@ + v@.take(k as int).map_values(lane),
            plan.lost@ == old(plan).lost@,
            plan.engagements@ == old(plan).engagements@,
            plan.counters@ == old(plan).counters@,
        decreases v@.len() - k,
    {
        let j: usize = v[k];
        let share = if units[a].kind.rocket {
            Share::Full
        } else if units[j].position == hex {
            Share::Centre
        } else {
            Share::Neighbor
        };
        let distance: i64 = units[a].position.distance(units[j].position);
        plan.strikes.push(Strike { attacker: a, target: j, distance, share });
        plan.lanes.push(Lane { attacker: a, defender: j, hex: units[j].position });
        proof {
            assert(v@.take(k + 1).map_values(strike) =~= v@.take(k as int).map_values(strike).push(
                strike(j),
            ));
            assert(v@.take(k + 1).map_values(lane) =~= v@.take(k as int).map_values(lane).push(lane(j)));
        }
        k += 1;
    }
    assert(v@.take(v@.len() as int) =~= v@);
}

/// The launcher after a salvo.
fn reloading(u: BattalionUnit, p: CombatParams) -> (r: BattalionUnit)
    ensures
        r == (BattalionUnit { fire_cooldown: p.rocket_fire_cooldown_turns, ..u }),
{
    BattalionUnit { fire_cooldown: p.rocket_fire_cooldown_turns, ..u }
}

/// The plan with a fire mission.
fn fire(
    plan: &mut FirePlan,
    p: CombatParams,
    units: &mut Vec<BattalionUnit>,
    a: usize,
    hex: HexCoord,
    precise: bool,
)
    requires
        a < old(units)@.len(),
    ensures
        final(plan).with_units(final(units)@) == fired(
            old(plan).with_units(old(units)@),
            p,
            a as int,
            hex,
            precise,
        ),
{
    let u = units[a];
    let distance: i64 = u.position.distance(hex);
    if distance == 0 || distance < u.min_attack_range || distance > u.attack_range
        || !u.can_fire_support() {
        plan.lost.push(fizzle(u.id, 0, hex));
        return;
    }
    if precise && !u.kind.rocket {
        match aimed_enemy(units, a, hex) {
            Some(d) => {
                plan.strikes.push(Strike { attacker: a, target: d, distance, share: Share::Full });
                plan.lanes.push(Lane { attacker: a, defender: d, hex });
                add_counter(&mut plan.counters, p, units, d, a, distance);
            },
            None => {
                plan.lost.push(fizzle(u.id, 0, hex));
            },
        }
        return;
    }
    let v: Vec<usize> = area_victims(units, a, hex);
    if v.len() == 0 {
        plan.lost.push(fizzle(u.id, 0, hex));
        return;
    }
    strike_area(plan, units, a, hex, &v);
    if let Some(d) = answering_enemy(units, a, hex) {
        add_counter(&mut plan.counters, p, units, d, a, distance);
    }
    if u.kind.rocket {
        units.set(a, reloading(u, p));
    }
}

/// The plan with one more order.
fn plan_order(
    plan: &mut FirePlan,
    p: CombatParams,
    units: &mut Vec<BattalionUnit>,
    order: AttackOrder,
    sees: bool,
)
    ensures
        final(plan).with_units(final(units)@) == ordered(
            old(plan).with_units(old(units)@),
            p,
            order,
            sees,
        ),
{
    if let Some(a) = find_unit(units.as_slice(), order.attacker) {
        let u = units[a];
        if !u.is_combat_effective() || u.shocked || !u.can_attack_order {
            return;
        }
        match order.target {
            AttackTarget::Assault(id) => {
                if u.can_assault {
                    if let Some(d) = find_unit(units.as_slice(), id) {
                        engage(plan, p, units, a, d, true, sees);
                    }
                }
            },
            AttackTarget::DirectFire(id) => {
                if let Some(d) = find_unit(units.as_slice(), id) {
                    engage(plan, p, units, a, d, false, sees);
                }
            },
            AttackTarget::FireMission { hex, precise } => {
                fire(plan, p, units, a, hex, precise);
            },
        }
    }
}

/// Holds the registered orders against the field: what each of them comes to.
/// `sight` says of each order whether its attacker has a line of sight to its
/// target.
pub fn plan_orders(
    p: CombatParams,
    units: &mut Vec<BattalionUnit>,
    orders: &Vec<AttackOrder>,
    sight: &Vec<bool>,
) -> (plan: FirePlan)
    requires
        sight@.len() == orders@.len(),
    ensures
        plan.with_units(final(units)@) == planned(old(units)@, p, orders@, sight@),
{
    let mut plan = FirePlan {
        lost: Vec::new(),
        engagements: Vec::new(),
        strikes: Vec::new(),
        lanes: Vec::new(),
        counters: Vec::new(),
    };
    let mut k: usize = 0;
    assert(orders@.take(0) =~= Seq::<AttackOrder>::empty());
    assert(plan.with_units(units@) =~= no_orders(units@));
    while k < orders.len()
        invariant
            k <= orders@.len(),
            sight@.len() == orders@.len(),
            plan.with_units(units@) == planned(old(units)@, p, orders@.take(k as int), sight@),
        decreases orders@.len() - k,
    {
        assert(orders@.take(k + 1).drop_last() =~= orders@.take(k as int));
        plan_order(&mut plan, p, units, orders[k], sight[k]);
        k += 1;
    }
    assert(orders@.take(orders@.len() as int) =~= orders@);
    plan
}

/// Two engagements belong to one volley: the same kind of attack on the same
/// battalion.
pub open spec fn same_volley(a: Engagement, b: Engagement) -> bool {
    a.target == b.target && a.assault == b.assault
}

/// The engagement is the first of its volley.
pub open spec fn opens_volley(e: Seq<Engagement>) -> spec_fn(usize) -> bool {
    |j: usize| forall|i: int| 0 <= i < j ==> !same_volley(#[trigger] e[i], e[j as int])
}

/// The first engagement of each volley, in order.
pub open spec fn volley_openers(e: Seq<Engagement>) -> Seq<usize> {
    those_where(indices(e.len()), opens_volley(e))
}

/// The engagements of the volley that engagement `i` belongs to, in order.
pub open spec fn volley_members(e: Seq<Engagement>, i: int) -> Seq<usize> {
    those_where(indices(e.len()), |j: usize| same_volley(e[j as int], e[i]))
}

fn starts_volley(e: &Vec<Engagement>, j: usize) -> (b: bool)
    requires
        j < e@.len(),
    ensures
        b == opens_volley(e@)(j),
{
    let mut i: usize = 0;
    while i < j
        invariant
            i <= j < e@.len(),
            forall|k: int| 0 <= k < i ==> !same_volley(#[trigger] e@[k], e@[j as int]),
        decreases j - i,
    {
        if e[i].target == e[j].target && e[i].assault == e[j].assault {
            assert(same_volley(e@[i as int], e@[j as int]));
            return false;
        }
        i += 1;
    }
    true
}

fn members_of(e: &Vec<Engagement>, i: usize) -> (m: Vec<usize>)
    requires
        i < e@.len(),
    ensures
        m@ == volley_members(e@, i as int),
{
    let ghost all = indices(e@.len());
    let ghost ok = |j: usize| same_volley(e@[j as int], e@[i as int]);
    let mut m: Vec<usize> = Vec::new();
    let mut j: usize = 0;
    assert(all.take(0) =~= Seq::<usize>::empty());
    while j < e.len()
        invariant
            i < e@.len(),
            j <= e@.len(),
            all == indices(e@.len()),
            ok == (|j: usize| same_volley(e@[j as int], e@[i as int])),
            m@ == those_where(all.take(j as int), ok),
        decreases e@.len() - j,
    {
        proof {
            assert(all.take(j + 1).drop_last() =~= all.take(j as int));
            assert(all.take(j + 1).last() == j);
        }
        if e[j].target == e[i].target && e[j].assault == e[i].assault {
            m.push(j);
        }
        j += 1;
    }
    assert(all.take(e@.len() as int) =~= all);
    m
}

/// The volleys, in the order in which they were opened: all engagements of
/// one kind with one battalion strike it together.
pub fn group_volleys(e: &Vec<Engagement>) -> (groups: Vec<Vec<usize>>)
    ensures
        groups@.len() == volley_openers(e@).len(),
        forall|k: int|
            0 <= k < groups@.len() ==> (#[trigger] groups@[k])@ == volley_members(
                e@,
                volley_openers(e@)[k] as int,
            ),
{
    let ghost all = indices(e@.len());
    let ghost ok = opens_volley(e@);
    let mut groups: Vec<Vec<usize>> = Vec::new();
    let mut j: usize = 0;
    assert(all.take(0) =~= Seq::<usize>::empty());
    while j < e.len()
        invariant
            j <= e@.len(),
            all == indices(e@.len()),
            ok == opens_volley(e@),
            groups@.len() == those_where(all.take(j as int), ok).len(),
            forall|k: int|
                0 <= k < groups@.len() ==> (#[trigger] groups@[k])@ == volley_members(
                    e@,
                    those_where(all.take(j as int), ok)[k] as int,
                ),
        decreases e@.len() - j,
    {
        proof {
            assert(all.take(j + 1).drop_last() =~= all.take(j as int));
            assert(all.take(j + 1).last() == j);
        }
        if starts_volley(e, j) {
            let m: Vec<usize> = members_of(e, j);
            groups.push(m);
        }
        j += 1;
    }
    assert(all.take(e@.len() as int) =~= all);
    groups
}

/// The replies of one defender, in order.
pub open spec fn replies_of(counters: Seq<Counter>, d: int) -> Seq<Counter> {
    those_where(counters, |c: Counter| c.defender == d)
}

/// The strikes of one defender: its firepower is split over all of them.
pub open spec fn strikes_of(counters: Seq<Counter>, d: int) -> Seq<CounterStrike> {
    replies_of(counters, d).map_values(
        |c: Counter|
            CounterStrike {
                defender: c.defender,
                attacker: c.attacker,
                distance: c.distance,
                split: replies_of(counters, d).len() as usize,
            },
    )
}

/// The counter-fire of the first `n` battalions: each of them that still
/// fights fires its replies.
pub open spec fn counter_fire_upto(
    units: Seq<BattalionUnit>,
    counters: Seq<Counter>,
    n: nat,
) -> Seq<CounterStrike>
    decreases n,
{
    if n == 0 {
        Seq::empty()
    } else {
        let rest = counter_fire_upto(units, counters, (n - 1) as nat);
        if units[n - 1].effective() {
            rest + strikes_of(counters, n - 1)
        } else {
            rest
        }
    }
}

fn replies_by(counters: &Vec<Counter>, d: usize) -> (r: Vec<Counter>)
    ensures
        r@ == replies_of(counters@, d as int),
{
    let ghost ok = |c: Counter| c.defender == d;
    let mut r: Vec<Counter> = Vec::new();
    let mut i: usize = 0;
    assert(counters@.take(0) =~= Seq::<Counter>::empty());
    while i < counters.len()
        invariant
            i <= counters@.len(),
            ok == (|c: Counter| c.defender == d),
            r@ == those_where(counters@.take(i as int), ok),
        decreases counters@.len() - i,
    {
        assert(counters@.take(i + 1).drop_last() =~= counters@.take(i as int));
        if counters[i].defender == d {
            r.push(counters[i]);
        }
        i += 1;
    }
    assert(counters@.take(counters@.len() as int) =~= counters@);
    assert(ok =~= (|c: Counter| c.defender == d as int));
    r
}

/// The counter-fire, defender by defender: only those that still fight reply.
pub fn counter_fire(units: &Vec<BattalionUnit>, counters: &Vec<Counter>) -> (out: Vec<CounterStrike>)
    ensures
        out@ == counter_fire_upto(units@, counters@, units@.len()),
{
    let mut out: Vec<CounterStrike> = Vec::new();
    let mut d: usize = 0;
    while d < units.len()
        invariant
            d <= units@.len(),
            out@ == counter_fire_upto(units@, counters@, d as nat),
        decreases units@.len() - d,
    {
        if units[d].is_combat_effective() {
            let r: Vec<Counter> = replies_by(counters, d);
            let ghost before = out@;
            let ghost f = |c: Counter|
                CounterStrike {
                    defender: c.defender,
                    attacker: c.attacker,
                    distance: c.distance,
                    split: replies_of(counters@, d as int).len() as usize,
                };
            let mut i: usize = 0;
            assert(r@.take(0).map_values(f) =~= Seq::<CounterStrike>::empty());
            while i < r.len()
                invariant
                    i <= r@.len(),
                    r@ == replies_of(counters@, d as int),
                    f == (|c: Counter|
                        CounterStrike {
                            defender: c.defender,
                            attacker: c.attacker,
                            distance: c.distance,
                            split: replies_of(counters@, d as int).len() as usize,
                        }),
                    out@ == before + r@.take(i as int).map_values(f),
                decreases r@.len() - i,
            {
                out.push(
                    CounterStrike {
                        defender: r[i].defender,
                        attacker: r[i].attacker,
                        distance: r[i].distance,
                        split: r.len(),
                    },
                );
                assert(r@.take(i + 1).map_values(f) =~= r@.take(i as int).map_values(f).push(
                    f(r@[i as int]),
                ));
                i += 1;
            }
            assert(r@.take(r@.len() as int) =~= r@);
        }
        d += 1;
    }
    out
}

/// The battalion carries out its attack: it fights and is not shocked.
pub open spec fn attacks(u: BattalionUnit) -> bool {
    u.effective() && !u.shocked && u.can_attack_order
}

/// An engagement of a volley is in order.
pub open spec fn engagement_ok(units: Seq<BattalionUnit>, e: Engagement) -> bool {
    &&& e.attacker < units.len()
    &&& e.target < units.len()
    &&& attacks(units[e.attacker as int])
    &&& units[e.target as int].targetable()
    &&& e.distance == hex_distance(units[e.attacker as int].position, units[e.target as int].position)
    &&& if e.assault {
        e.distance == 1 && units[e.attacker as int].can_assault
    } else {
        1 <= e.distance <= units[e.attacker as int].attack_range
    }
}

/// A strike of a fire mission is in order: no battery is its own victim, and
/// only tube artillery fires at a part of its strength.
pub open spec fn strike_ok(units: Seq<BattalionUnit>, k: Strike) -> bool {
    &&& k.attacker < units.len()
    &&& k.target < units.len()
    &&& attacks(units[k.attacker as int])
    &&& units[k.target as int].targetable()
    &&& units[k.attacker as int].fire_support
    &&& units[k.attacker as int].kind.rocket || k.attacker != k.target
    &&& units[k.attacker as int].kind.rocket ==> k.share == Share::Full
}

/// A lane is in order.
pub open spec fn lane_ok(units: Seq<BattalionUnit>, l: Lane) -> bool {
    &&& l.attacker < units.len()
    &&& l.defender < units.len()
    &&& attacks(units[l.attacker as int])
    &&& units[l.defender as int].targetable()
    &&& units[l.defender as int].position == l.hex
}

/// A reply is in order: a launcher or a limbered gun gives none, artillery
/// only over open sights, and no battalion beyond its reach.
pub open spec fn counter_ok(p: CombatParams, units: Seq<BattalionUnit>, c: Counter) -> bool {
    &&& c.defender < units.len()
    &&& c.attacker < units.len()
    &&& attacks(units[c.attacker as int])
    &&& !units[c.defender as int].kind.rocket
    &&& !units[c.defender as int].limbered()
    &&& 1 <= c.distance
    &&& if units[c.defender as int].kind.indirect_artillery {
        c.distance <= p.counter_direct_lay_range
    } else {
        c.distance <= units[c.defender as int].attack_range
    }
}

/// The battalions are unchanged but for the launchers that reload.
pub open spec fn only_reloads(before: Seq<BattalionUnit>, after: Seq<BattalionUnit>) -> bool {
    &&& before.len() == after.len()
    &&& forall|i: int|
        #![trigger before[i]]
        #![trigger after[i]]
        0 <= i < before.len() ==> after[i] == (BattalionUnit {
            fire_cooldown: after[i].fire_cooldown,
            ..before[i]
        }) && (after[i].fire_cooldown != before[i].fire_cooldown ==> before[i].kind.rocket)
}

/// All that the orders come to is in order.
pub open spec fn plan_ok(p: CombatParams, units: Seq<BattalionUnit>, pl: PlanView) -> bool {
    &&& units.len() <= usize::MAX
    &&& only_reloads(units, pl.units)
    &&& forall|i: int|
        0 <= i < pl.engagements.len() ==> engagement_ok(units, #[trigger] pl.engagements[i])
    &&& forall|i: int| 0 <= i < pl.strikes.len() ==> strike_ok(units, #[trigger] pl.strikes[i])
    &&& forall|i: int| 0 <= i < pl.lanes.len() ==> lane_ok(units, #[trigger] pl.lanes[i])
    &&& forall|i: int| 0 <= i < pl.counters.len() ==> counter_ok(p, units, #[trigger] pl.counters[i])
    &&& forall|i: int| 0 <= i < pl.lost.len() ==> (#[trigger] pl.lost[i]).target_lost
}

proof fn lemma_distance_fits(a: HexCoord, b: HexCoord)
    ensures
        0 <= hex_distance(a, b) <= 0x2_0000_0000,
        (hex_distance(a, b) as i64) == hex_distance(a, b),
{
}

proof fn lemma_unit_index(units: Seq<BattalionUnit>, id: usize)
    ensures
        unit_index(units, id) matches Some(i) ==> 0 <= i < units.len() && units[i].id == id,
{
    crate::pick::law_first_where(units, |u: BattalionUnit| u.id == id);
}

proof fn lemma_engaged_ok(
    p: CombatParams,
    units: Seq<BattalionUnit>,
    pl: PlanView,
    a: int,
    d: int,
    assault: bool,
    sees: bool,
)
    requires
        plan_ok(p, units, pl),
        0 <= a < units.len(),
        0 <= d < units.len(),
        attacks(pl.units[a]),
        assault ==> pl.units[a].can_assault,
    ensures
        plan_ok(p, units, engaged(pl, p, a, d, assault, sees)),
{
    let after = engaged(pl, p, a, d, assault, sees);
    assert(pl.units[a].position == units[a].position);
    assert(pl.units[d].position == units[d].position);
    lemma_distance_fits(units[a].position, units[d].position);
    assert(pl.units[d].targetable() == units[d].targetable());
    assert forall|i: int| 0 <= i < after.counters.len() implies counter_ok(
        p,
        units,
        #[trigger] after.counters[i],
    ) by {
        if i < pl.counters.len() {
            assert(after.counters[i] == pl.counters[i]);
        }
    }
}

/// A battalion that may have reloaded is the same in all that the rules of
/// attack look at.
proof fn lemma_kept(before: Seq<BattalionUnit>, after: Seq<BattalionUnit>, i: int)
    requires
        only_reloads(before, after),
        0 <= i < before.len(),
    ensures
        after[i].position == before[i].position,
        after[i].side == before[i].side,
        after[i].kind == before[i].kind,
        after[i].attack_range == before[i].attack_range,
        after[i].fire_support == before[i].fire_support,
        after[i].targetable() == before[i].targetable(),
        after[i].limbered() == before[i].limbered(),
        attacks(after[i]) == attacks(before[i]),
{
}

proof fn lemma_reply_ok(p: CombatParams, units: Seq<BattalionUnit>, pl: PlanView, d: int, a: int, distance: int)
    requires
        plan_ok(p, units, pl),
        0 <= a < units.len(),
        0 <= d < units.len(),
        attacks(pl.units[a]),
        1 <= distance <= 0x2_0000_0000,
    ensures
        forall|i: int|
            0 <= i < (pl.counters + reply(p, pl.units, d, a, distance)).len() ==> counter_ok(
                p,
                units,
                #[trigger] (pl.counters + reply(p, pl.units, d, a, distance))[i],
            ),
{
    lemma_kept(units, pl.units, a);
    lemma_kept(units, pl.units, d);
    let after = pl.counters + reply(p, pl.units, d, a, distance);
    assert forall|i: int| 0 <= i < after.len() implies counter_ok(p, units, #[trigger] after[i]) by {
        if i < pl.counters.len() {
            assert(after[i] == pl.counters[i]);
        }
    }
}

proof fn lemma_area_ok(p: CombatParams, units: Seq<BattalionUnit>, pl: PlanView, a: int, hex: HexCoord)
    requires
        plan_ok(p, units, pl),
        0 <= a < units.len(),
        attacks(pl.units[a]),
        pl.units[a].fire_support,
    ensures
        ({
            let strikes = pl.strikes + victims(pl.units, a, hex).map_values(
                area_strike(pl.units, a, hex),
            );
            forall|i: int| 0 <= i < strikes.len() ==> strike_ok(units, #[trigger] strikes[i])
        }),
        ({
            let lanes = pl.lanes + victims(pl.units, a, hex).map_values(area_lane(pl.units, a));
            forall|i: int| 0 <= i < lanes.len() ==> lane_ok(units, #[trigger] lanes[i])
        }),
{
    let us = pl.units;
    let all = indices(us.len());
    lemma_kept(units, us, a);
    crate::pick::law_those_where(all, in_zone(us, a, hex));
    let v = victims(us, a, hex);
    assert forall|k: int| 0 <= k < v.len() implies (#[trigger] v[k]) < us.len() && in_zone(us, a, hex)(
        v[k],
    ) by {
        assert(v.contains(v[k]));
        let j = choose|j: int| 0 <= j < all.len() && all[j] == v[k];
    }
    let strikes = pl.strikes + v.map_values(area_strike(us, a, hex));
    assert forall|i: int| 0 <= i < strikes.len() implies strike_ok(units, #[trigger] strikes[i]) by {
        if i < pl.strikes.len() {
            assert(strikes[i] == pl.strikes[i]);
        } else {
            let j = v[i - pl.strikes.len()];
            lemma_kept(units, us, j as int);
            assert(strikes[i] == area_strike(us, a, hex)(j));
        }
    }
    let lanes = pl.lanes + v.map_values(area_lane(us, a));
    assert forall|i: int| 0 <= i < lanes.len() implies lane_ok(units, #[trigger] lanes[i]) by {
        if i < pl.lanes.len() {
            assert(lanes[i] == pl.lanes[i]);
        } else {
            let j = v[i - pl.lanes.len()];
            lemma_kept(units, us, j as int);
            assert(lanes[i] == area_lane(us, a)(j));
        }
    }
}

/// The enemies that the rules pick in a zone are battalions of the field.
proof fn lemma_picked(units: Seq<BattalionUnit>, a: int, hex: HexCoord)
    requires
        units.len() <= usize::MAX,
    ensures
        aimed_at(units, a, hex) matches Some(d) ==> 0 <= d < units.len() && units[d].targetable()
            && units[d].position == hex && units[d].side != units[a].side,
        answering(units, a, hex) matches Some(d) ==> 0 <= d < units.len(),
{
    let all = indices(units.len());
    let aimed = |j: usize| enemy_in_zone(units, a, hex)(j) && units[j as int].position == hex;
    crate::pick::law_first_where(all, aimed);
    let beats = |x: usize, y: usize| units[x as int].org >= units[y as int].org;
    law_winner_matches(all, enemy_in_zone(units, a, hex), beats);
}

proof fn lemma_reload_ok(before: Seq<BattalionUnit>, after: Seq<BattalionUnit>, a: int, turns: i64)
    requires
        only_reloads(before, after),
        0 <= a < before.len(),
        before[a].kind.rocket,
    ensures
        only_reloads(before, after.update(a, BattalionUnit { fire_cooldown: turns, ..after[a] })),
{
    let next = after.update(a, BattalionUnit { fire_cooldown: turns, ..after[a] });
    assert forall|i: int|
        #![trigger before[i]]
        #![trigger next[i]]
        0 <= i < before.len() implies next[i] == (BattalionUnit {
        fire_cooldown: next[i].fire_cooldown,
        ..before[i]
    }) && (next[i].fire_cooldown != before[i].fire_cooldown ==> before[i].kind.rocket) by {
        if i != a {
            assert(next[i] == after[i]);
        }
    }
}

proof fn lemma_fired_at_ok(p: CombatParams, units: Seq<BattalionUnit>, pl: PlanView, a: int, hex: HexCoord, d: int)
    requires
        plan_ok(p, units, pl),
        0 <= a < units.len(),
        0 <= d < units.len(),
        attacks(pl.units[a]),
        pl.units[a].fire_support,
        !pl.units[a].kind.rocket,
        pl.units[d].targetable(),
        pl.units[d].position == hex,
        pl.units[a].position != hex,
    ensures
        plan_ok(p, units, fired_at(pl, p, a, hex, d)),
{
    lemma_distance_fits(pl.units[a].position, hex);
    lemma_kept(units, pl.units, a);
    lemma_kept(units, pl.units, d);
    lemma_reply_ok(p, units, pl, d, a, hex_distance(pl.units[a].position, hex));
}

proof fn lemma_shelled_ok(p: CombatParams, units: Seq<BattalionUnit>, pl: PlanView, a: int, hex: HexCoord)
    requires
        plan_ok(p, units, pl),
        0 <= a < units.len(),
        attacks(pl.units[a]),
        pl.units[a].fire_support,
        pl.units[a].position != hex,
    ensures
        plan_ok(p, units, shelled(pl, p, a, hex)),
{
    let us = pl.units;
    lemma_distance_fits(us[a].position, hex);
    lemma_picked(us, a, hex);
    lemma_kept(units, us, a);
    lemma_area_ok(p, units, pl, a, hex);
    if let Some(d) = answering(us, a, hex) {
        lemma_reply_ok(p, units, pl, d, a, hex_distance(us[a].position, hex));
    }
    if us[a].kind.rocket {
        lemma_reload_ok(units, us, a, p.rocket_fire_cooldown_turns);
    }
}

proof fn lemma_fired_ok(
    p: CombatParams,
    units: Seq<BattalionUnit>,
    pl: PlanView,
    a: int,
    hex: HexCoord,
    precise: bool,
)
    requires
        plan_ok(p, units, pl),
        0 <= a < units.len(),
        attacks(pl.units[a]),
    ensures
        plan_ok(p, units, fired(pl, p, a, hex, precise)),
{
    let us = pl.units;
    let distance = hex_distance(us[a].position, hex);
    assert(plan_ok(p, units, missed(pl, a, hex)));
    if distance != 0 && us[a].fires_support() {
        lemma_picked(us, a, hex);
        lemma_shelled_ok(p, units, pl, a, hex);
        if !us[a].kind.rocket {
            if let Some(d) = aimed_at(us, a, hex) {
                lemma_fired_at_ok(p, units, pl, a, hex, d);
            }
        }
    }
}

/// Whatever the orders are, what they come to is in order: only battalions
/// that fight and are not shocked attack; an assault is on an adjacent hex and
/// direct fire within range; a battery is never its own victim; launchers and
/// limbered guns never reply, artillery replies over open sights only; and
/// nothing but the launchers' reloading has changed.
pub proof fn law_orders_are_held_to_the_rules(
    p: CombatParams,
    units: Seq<BattalionUnit>,
    orders: Seq<AttackOrder>,
    sight: Seq<bool>,
)
    requires
        units.len() <= usize::MAX,
    ensures
        plan_ok(p, units, planned(units, p, orders, sight)),
    decreases orders.len(),
{
    if orders.len() > 0 {
        law_orders_are_held_to_the_rules(p, units, orders.drop_last(), sight);
        let pl = planned(units, p, orders.drop_last(), sight);
        let order = orders.last();
        let sees = sight[orders.len() - 1];
        lemma_unit_index(pl.units, order.attacker);
        if let Some(a) = unit_index(pl.units, order.attacker) {
            match order.target {
                AttackTarget::Assault(id) => {
                    lemma_unit_index(pl.units, id);
                    if let Some(d) = unit_index(pl.units, id) {
                        if may_carry_out(pl.units[a], order.target) {
                            lemma_engaged_ok(p, units, pl, a, d, true, sees);
                        }
                    }
                },
                AttackTarget::DirectFire(id) => {
                    lemma_unit_index(pl.units, id);
                    if let Some(d) = unit_index(pl.units, id) {
                        if may_carry_out(pl.units[a], order.target) {
                            lemma_engaged_ok(p, units, pl, a, d, false, sees);
                        }
                    }
                },
                AttackTarget::FireMission { hex, precise } => {
                    if may_carry_out(pl.units[a], order.target) {
                        lemma_fired_ok(p, units, pl, a, hex, precise);
                    }
                },
            }
        }
    }
}

/// Counter-fire comes only from battalions that fight, so never from one that
/// is already in rout, and a defender's firepower is split over exactly the
/// replies that it fires.
pub proof fn law_only_those_that_fight_reply(units: Seq<BattalionUnit>, counters: Seq<Counter>, n: nat)
    requires
        n <= units.len() <= usize::MAX,
        counters.len() <= usize::MAX,
    ensures
        forall|k: int|
            0 <= k < counter_fire_upto(units, counters, n).len() ==> {
                let c = #[trigger] counter_fire_upto(units, counters, n)[k];
                &&& c.defender < n
                &&& units[c.defender as int].effective()
                &&& c.split == replies_of(counters, c.defender as int).len()
                &&& counters.contains(
                    Counter { defender: c.defender, attacker: c.attacker, distance: c.distance },
                )
            },
    decreases n,
{
    if n > 0 {
        law_only_those_that_fight_reply(units, counters, (n - 1) as nat);
        let rest = counter_fire_upto(units, counters, (n - 1) as nat);
        let all = counter_fire_upto(units, counters, n);
        let d = n - 1;
        let ok = |c: Counter| c.defender == d;
        crate::pick::law_those_where(counters, ok);
        assert forall|k: int| 0 <= k < all.len() implies {
            let c = #[trigger] all[k];
            &&& c.defender < n
            &&& units[c.defender as int].effective()
            &&& c.split == replies_of(counters, c.defender as int).len()
            &&& counters.contains(
                Counter { defender: c.defender, attacker: c.attacker, distance: c.distance },
            )
        } by {
            if k < rest.len() {
                assert(all[k] == rest[k]);
            } else {
                let r = replies_of(counters, d);
                let c = r[k - rest.len()];
                assert(r.contains(c));
                assert(all[k] == strikes_of(counters, d)[k - rest.len()]);
                assert(c == (Counter {
                    defender: c.defender,
                    attacker: c.attacker,
                    distance: c.distance,
                }));
            }
        }
    }
}

} // verus!
