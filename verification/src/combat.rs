//! The combat engine: it resolves fire phases, lets shocks wear off, and
//! applies attrition, rest and departure at the end of a turn.
use vstd::prelude::*;
use crate::fire::{
    law_orders_are_held_to_the_rules, plan_orders, planned, AttackOrder, CombatParams, CombatResult,
    FirePlan, PlanView,
};
use crate::grid::HexGrid;
use crate::hex::{hex_distance, HexCoord};
use crate::pick::{indices, those_where};
use crate::retreat::{eastern_rim, rim_hexes};
use crate::settle::{
    event_views, fought_out, law_settlement_wears_down, report, reported, settle, settled, shakes_lower, spend, spent,
    tolls_lower, AnswerView, Answers, HqLoss, HqLossEvent, LaneDamage, Missing, Toll,
};
use crate::unit::{offboard, offboard_hex, BattalionUnit, Condition, Side, UnitState};

verus! {

/// The damage of a fire phase: what it did to each battalion, and what passed
/// in each lane.
#[derive(Debug, PartialEq, Eq)]
pub struct DamageReport {
    pub tolls: Vec<Toll>,
    pub lanes: Vec<LaneDamage>,
}

/// What a fire phase is told from outside: of each order whether its attacker
/// has a line of sight to its target; the damage, once it is computed; and the
/// answers to what was asked.
#[derive(Debug, PartialEq, Eq)]
pub struct FireReports {
    pub sight: Vec<bool>,
    pub damage: Option<DamageReport>,
    pub answers: Answers,
}

/// What a fire phase has to be told before it can go on.
#[derive(Debug, PartialEq, Eq)]
pub enum FireQuestion {
    /// The damage of the strikes that the orders come to.
    Damage { plan: FirePlan, units: Vec<BattalionUnit> },
    /// An answer, as the field then stands.
    Answer { missing: Missing, units: Vec<BattalionUnit> },
}

/// What a fire phase comes to.
pub enum FireOutcome {
    /// The damage of the strikes is to be computed.
    Strikes(PlanView),
    /// An answer is missing.
    Asks { missing: Missing, units: Seq<BattalionUnit> },
    /// The phase is resolved: the battalions, the reports, the battalions that
    /// it shocked and the headquarters that it cost.
    Resolved {
        units: Seq<BattalionUnit>,
        results: Seq<CombatResult>,
        shocked: Seq<usize>,
        events: Seq<HqLoss>,
    },
}

/// The ids of the battalions that the fire shocked.
pub open spec fn stunned_ids(units: Seq<BattalionUnit>, tolls: Seq<Toll>) -> Seq<usize> {
    those_where(indices(units.len()), |i: usize| tolls[i as int].stunned).map_values(
        |i: usize| units[i as int].id,
    )
}

/// The reports on all orders: first those that fizzled, then each attack.
pub open spec fn all_reports(
    pl: PlanView,
    units: Seq<BattalionUnit>,
    damage: &DamageReport,
) -> Seq<CombatResult> {
    pl.lost + Seq::new(
        pl.lanes.len(),
        |k: int| reported(units, damage.tolls@, pl.engagements, pl.lanes[k], damage.lanes@[k]),
    )
}

/// What a fire phase comes to with what it was told.
pub open spec fn fire_phase(
    g: &HexGrid,
    rim: Seq<HexCoord>,
    p: CombatParams,
    units: Seq<BattalionUnit>,
    orders: Seq<AttackOrder>,
    reports: &FireReports,
) -> FireOutcome {
    let pl = planned(units, p, orders, reports.sight@);
    match reports.damage {
        None => FireOutcome::Strikes(pl),
        Some(damage) => {
            let (f, events) = settled(
                pl.units,
                damage.tolls@,
                reports.answers@,
                g,
                rim,
                pl.engagements,
            );
            match f.missing {
                Some(missing) => FireOutcome::Asks { missing, units: f.units },
                None => {
                    let after = spent(f.units, pl.lanes);
                    FireOutcome::Resolved {
                        units: after,
                        results: all_reports(pl, after, &damage),
                        shocked: stunned_ids(units, damage.tolls@),
                        events,
                    }
                },
            }
        },
    }
}

/// The engine: the rules' numbers, what the latest fire phase shocked and
/// cost, and the zones that routs make for.
#[derive(Clone)]
pub struct CombatEngine {
    params: CombatParams,
    last_shocked: Vec<usize>,
    last_hq_events: Vec<HqLossEvent>,
    retreat_zones: Option<(Vec<HexCoord>, Vec<HexCoord>)>,
}

/// The battalions after older shocks have worn off: only those in the list
/// stay shocked.
pub open spec fn expired(units: Seq<BattalionUnit>, lately: Seq<usize>) -> Seq<BattalionUnit> {
    Seq::new(
        units.len(),
        |i: int|
            BattalionUnit {
                shocked: units[i].shocked && lately.contains(units[i].id),
                ..units[i]
            },
    )
}

fn copy_units(units: &Vec<BattalionUnit>) -> (c: Vec<BattalionUnit>)
    ensures
        c@ == units@,
{
    let mut c: Vec<BattalionUnit> = Vec::new();
    let mut i: usize = 0;
    while i < units.len()
        invariant
            i <= units@.len(),
            c@ == units@.take(i as int),
        decreases units@.len() - i,
    {
        c.push(units[i]);
        assert(c@ =~= units@.take(i + 1));
        i += 1;
    }
    assert(units@.take(units@.len() as int) =~= units@);
    c
}

fn ids_of_stunned(units: &Vec<BattalionUnit>, tolls: &Vec<Toll>) -> (ids: Vec<usize>)
    requires
        tolls@.len() == units@.len(),
    ensures
        ids@ == stunned_ids(units@, tolls@),
{
    let ghost all = indices(units@.len());
    let ghost ok = |i: usize| tolls@[i as int].stunned;
    let ghost id_of = |i: usize| units@[i as int].id;
    let mut ids: Vec<usize> = Vec::new();
    let mut i: usize = 0;
    assert(all.take(0) =~= Seq::<usize>::empty());
    assert(those_where(all.take(0), ok).map_values(id_of) =~= Seq::<usize>::empty());
    while i < units.len()
        invariant
            i <= units@.len(),
            tolls@.len() == units@.len(),
            all == indices(units@.len()),
            ok == (|i: usize| tolls@[i as int].stunned),
            id_of == (|i: usize| units@[i as int].id),
            ids@ == those_where(all.take(i as int), ok).map_values(id_of),
        decreases units@.len() - i,
    {
        proof {
            assert(all.take(i + 1).drop_last() =~= all.take(i as int));
            assert(all.take(i + 1).last() == i);
            let rest = those_where(all.take(i as int), ok);
            assert(rest.push(i).map_values(id_of) =~= rest.map_values(id_of).push(id_of(i)));
        }
        if tolls[i].stunned {
            ids.push(units[i].id);
        }
        i += 1;
    }
    assert(all.take(units@.len() as int) =~= all);
    ids
}

fn has_id(ids: &Vec<usize>, id: usize) -> (b: bool)
    ensures
        b == ids@.contains(id),
{
    let mut i: usize = 0;
    while i < ids.len()
        invariant
            i <= ids@.len(),
            forall|j: int| 0 <= j < i ==> ids@[j] != id,
        decreases ids@.len() - i,
    {
        if ids[i] == id {
            assert(ids@[i as int] == id);
            return true;
        }
        i += 1;
    }
    false
}

fn with_shock(u: BattalionUnit, shocked: bool) -> (v: BattalionUnit)
    ensures
        v == (BattalionUnit { shocked, ..u }),
{
    BattalionUnit { shocked, ..u }
}

impl CombatEngine {
    /// The rules' numbers.
    pub closed spec fn rules(&self) -> CombatParams {
        self.params
    }

    /// The battalions that the latest fire phase shocked.
    pub closed spec fn shocked_lately(&self) -> Seq<usize> {
        self.last_shocked@
    }

    /// The headquarters lost in the latest fire phase.
    pub closed spec fn hq_events(&self) -> Seq<HqLoss> {
        event_views(self.last_hq_events@)
    }

    /// The zones of the battle, the attacker's and the defender's.
    pub closed spec fn zones(&self) -> Option<(Seq<HexCoord>, Seq<HexCoord>)> {
        match self.retreat_zones {
            Some(z) => Some((z.0@, z.1@)),
            None => None,
        }
    }

    /// The rim that the defender's routs make for.
    pub open spec fn home_rim(&self) -> Seq<HexCoord> {
        match self.zones() {
            Some(z) => eastern_rim(z.1),
            None => Seq::empty(),
        }
    }

    pub fn new(params: CombatParams) -> (e: CombatEngine)
        ensures
            e.rules() == params,
            e.shocked_lately() == Seq::<usize>::empty(),
            e.hq_events() == Seq::<HqLoss>::empty(),
            e.zones() is None,
    {
        let e = CombatEngine {
            params,
            last_shocked: Vec::new(),
            last_hq_events: Vec::new(),
            retreat_zones: None,
        };
        assert(e.hq_events() =~= Seq::<HqLoss>::empty());
        e
    }

    /// Attaches the deployment zones of the battle, so that the defender's
    /// routs make for the rim of its own zone.
    pub fn set_retreat_zones(&mut self, zones: Option<(Vec<HexCoord>, Vec<HexCoord>)>)
        ensures
            final(self).zones() == match zones {
                Some(z) => Some((z.0@, z.1@)),
                None => None,
            },
            final(self).rules() == old(self).rules(),
            final(self).shocked_lately() == old(self).shocked_lately(),
            final(self).hq_events() == old(self).hq_events(),
    {
        self.retreat_zones = zones;
    }

    pub fn params(&self) -> (p: &CombatParams)
        ensures
            *p == self.rules(),
    {
        &self.params
    }

    /// Hands out the headquarters lost in the latest fire phase, once.
    pub fn take_hq_events(&mut self) -> (events: Vec<HqLossEvent>)
        ensures
            event_views(events@) == old(self).hq_events(),
            final(self).hq_events() == Seq::<HqLoss>::empty(),
            final(self).rules() == old(self).rules(),
            final(self).shocked_lately() == old(self).shocked_lately(),
            final(self).zones() == old(self).zones(),
    {
        let mut events: Vec<HqLossEvent> = Vec::new();
        std::mem::swap(&mut events, &mut self.last_hq_events);
        assert(self.hq_events() =~= Seq::<HqLoss>::empty());
        events
    }

    /// Lets shocks wear off at a side's turn end: those of the fire phase that
    /// has just run stay, all older ones go.
    pub fn expire_shocks(&mut self, units: &mut Vec<BattalionUnit>)
        ensures
            final(units)@ == expired(old(units)@, old(self).shocked_lately()),
            final(self).shocked_lately() == Seq::<usize>::empty(),
            final(self).rules() == old(self).rules(),
            final(self).hq_events() == old(self).hq_events(),
            final(self).zones() == old(self).zones(),
    {
        let mut i: usize = 0;
        let ghost lately = self.last_shocked@;
        while i < units.len()
            invariant
                i <= units@.len(),
                *self == *old(self),
                lately == self.last_shocked@,
                units@.len() == old(units)@.len(),
                forall|j: int| 0 <= j < i ==> #[trigger] units@[j] == expired(old(units)@, lately)[j],
                forall|j: int| i <= j < units@.len() ==> #[trigger] units@[j] == old(units)@[j],
            decreases units@.len() - i,
        {
            let stays = units[i].shocked && has_id(&self.last_shocked, units[i].id);
            let u = with_shock(units[i], stays);
            units.set(i, u);
            i += 1;
        }
        assert(units@ =~= expired(old(units)@, lately));
        self.last_shocked = Vec::new();
    }

    /// Resolves all attack orders of a side and the counter-fire together.
    ///
    /// The damage of the strikes, and the answers to what it asks, come from
    /// outside: as long as something is missing, the phase asks for it and
    /// leaves everything as it was; once it is told all, it is resolved.
    pub fn resolve_fire_phase(
        &mut self,
        grid: &HexGrid,
        units: &mut Vec<BattalionUnit>,
        orders: &Vec<AttackOrder>,
        reports: &FireReports,
    ) -> (r: Result<Vec<CombatResult>, FireQuestion>)
        requires
            reports.sight@.len() == orders@.len(),
            reports.damage matches Some(d) ==> d.tolls@.len() == old(units)@.len() && d.lanes@.len()
                == planned(old(units)@, old(self).rules(), orders@, reports.sight@).lanes.len(),
        ensures
            final(self).rules() == old(self).rules(),
            final(self).zones() == old(self).zones(),
            match fire_phase(
                grid,
                old(self).home_rim(),
                old(self).rules(),
                old(units)@,
                orders@,
                reports,
            ) {
                FireOutcome::Strikes(pl) => {
                    &&& r matches Err(FireQuestion::Damage { plan, units: field })
                    &&& plan.with_units(field@) == pl
                    &&& final(units)@ == old(units)@
                    &&& *final(self) == *old(self)
                },
                FireOutcome::Asks { missing, units: field } => {
                    &&& r matches Err(FireQuestion::Answer { missing: m, units: u })
                    &&& m == missing
                    &&& u@ == field
                    &&& final(units)@ == old(units)@
                    &&& *final(self) == *old(self)
                },
                FireOutcome::Resolved { units: field, results, shocked, events } => {
                    &&& r matches Ok(out)
                    &&& out@ == results
                    &&& final(units)@ == field
                    &&& final(self).shocked_lately() == shocked
                    &&& final(self).hq_events() == events
                },
            },
            r is Ok ==> (reports.damage matches Some(d) && (told_losses(
                grid,
                old(self).home_rim(),
                planned(old(units)@, old(self).rules(), orders@, reports.sight@),
                &d,
                reports.answers@,
            ) ==> worn_down(old(units)@, final(units)@, d.tolls@))),
    {
        let mut field: Vec<BattalionUnit> = copy_units(units);
        let count: usize = units.len();
        let plan = plan_orders(self.params, &mut field, orders, &reports.sight);
        let ghost pl = planned(units@, self.params, orders@, reports.sight@);
        proof {
            assert(units@.len() == count);
            law_orders_are_held_to_the_rules(self.params, units@, orders@, reports.sight@);
        }
        match &reports.damage {
            None => Err(FireQuestion::Damage { plan, units: field }),
            Some(damage) => {
                let rim: Vec<HexCoord> = match &self.retreat_zones {
                    Some(z) => rim_hexes(z.1.as_slice()),
                    None => Vec::new(),
                };
                assert(rim@ == self.home_rim());
                let (f, events) = settle(
                    &field,
                    &damage.tolls,
                    &reports.answers,
                    grid,
                    &rim,
                    &plan.engagements,
                );
                match f.missing {
                    Some(missing) => Err(FireQuestion::Answer { missing, units: f.units }),
                    None => {
                        let mut after: Vec<BattalionUnit> = f.units;
                        spend(&mut after, &plan.lanes);
                        let results = write_reports(plan, &after, damage);
                        proof {
                            if told_losses(grid, rim@, pl, damage, reports.answers@) {
                                law_fire_phase_wears_down(grid, rim@, self.params, units@, orders@, reports);
                            }
                        }
                        self.last_shocked = ids_of_stunned(units, &damage.tolls);
                        self.last_hq_events = events;
                        *units = after;
                        Ok(results)
                    },
                }
            },
        }
    }
}

fn write_reports(plan: FirePlan, units: &Vec<BattalionUnit>, damage: &DamageReport) -> (out: Vec<
    CombatResult,
>)
    requires
        damage.lanes@.len() == plan.lanes@.len(),
        damage.tolls@.len() == units@.len(),
        forall|k: int|
            0 <= k < plan.lanes@.len() ==> (#[trigger] plan.lanes@[k]).attacker < units@.len()
                && plan.lanes@[k].defender < units@.len(),
    ensures
        out@ == all_reports(plan.with_units(units@), units@, damage),
{
    let FirePlan { lost, engagements, strikes: _, lanes, counters: _ } = plan;
    let ghost lost_before = lost@;
    let mut out: Vec<CombatResult> = lost;
    let mut k: usize = 0;
    while k < lanes.len()
        invariant
            k <= lanes@.len(),
            damage.lanes@.len() == lanes@.len(),
            damage.tolls@.len() == units@.len(),
            forall|k: int|
                0 <= k < lanes@.len() ==> (#[trigger] lanes@[k]).attacker < units@.len()
                    && lanes@[k].defender < units@.len(),
            out@ == lost_before + Seq::new(
                k as nat,
                |j: int| reported(units@, damage.tolls@, engagements@, lanes@[j], damage.lanes@[j]),
            ),
        decreases lanes@.len() - k,
    {
        out.push(report(units, &damage.tolls, &engagements, lanes[k], damage.lanes[k]));
        k += 1;
    }
    out
}

/// How far a battalion is encircled.
#[derive(Debug, Clone, Copy, PartialEq, Eq, Structural)]
pub enum EncirclementLevel {
    Free,
    Partial,
    Full,
}

/// Whether a level of encirclement costs organisation.
#[derive(Debug, Clone, Copy, PartialEq, Eq, Structural)]
pub struct AttritionRates {
    pub free: bool,
    pub partial: bool,
    pub full: bool,
}

impl AttritionRates {
    pub open spec fn costly(self, level: EncirclementLevel) -> bool {
        match level {
            EncirclementLevel::Free => self.free,
            EncirclementLevel::Partial => self.partial,
            EncirclementLevel::Full => self.full,
        }
    }
}

/// The level that counts for a battalion: only one that fights is ground down.
pub open spec fn counted_level(u: BattalionUnit, level: EncirclementLevel) -> EncirclementLevel {
    if u.effective() {
        level
    } else {
        EncirclementLevel::Free
    }
}

/// A battalion after a turn of encirclement, where `worn` is the condition
/// that the attrition leaves it in: without organisation it surrenders if it
/// is fully encircled, and routs otherwise.
pub open spec fn ground_down(
    u: BattalionUnit,
    rates: AttritionRates,
    level: EncirclementLevel,
    worn: Condition,
) -> BattalionUnit {
    let counted = counted_level(u, level);
    if !rates.costly(counted) {
        u
    } else if worn.org != 0 {
        u.in_condition(worn)
    } else if counted == EncirclementLevel::Full {
        u.in_condition(worn).in_state(UnitState::Surrendered)
    } else {
        u.in_condition(worn).in_state(UnitState::Retreating)
    }
}

/// A combat-effective enemy of the battalion stands next to it.
pub open spec fn in_contact(units: Seq<BattalionUnit>, u: BattalionUnit) -> bool {
    exists|i: int|
        0 <= i < units.len() && (#[trigger] units[i]).side != u.side && units[i].effective()
            && hex_distance(units[i].position, u.position) == 1
}

/// What rest gives back: organisation, its share and its hundredths.
#[derive(Debug, Clone, Copy, PartialEq, Eq, Structural)]
pub struct Rest {
    pub org: u32,
    pub org_ratio: u32,
    pub org_cents: i64,
}

/// The battalion after it has rested.
pub open spec fn rested(u: BattalionUnit, rest: Rest) -> BattalionUnit {
    BattalionUnit { org: rest.org, org_ratio: rest.org_ratio, org_cents: rest.org_cents, ..u }
}

/// The battalions after a full turn's rest: those that fight, are in command
/// and out of contact regroup.
pub open spec fn regrouped(
    units: Seq<BattalionUnit>,
    in_command: Seq<bool>,
    rests: Seq<Rest>,
) -> Seq<BattalionUnit> {
    Seq::new(
        units.len(),
        |i: int|
            if units[i].effective() && in_command[i] && !in_contact(units, units[i]) {
                rested(units[i], rests[i])
            } else {
                units[i]
            },
    )
}

fn has_adjacent_enemy(units: &Vec<BattalionUnit>, u: &BattalionUnit) -> (b: bool)
    ensures
        b == in_contact(units@, *u),
{
    let mut i: usize = 0;
    while i < units.len()
        invariant
            i <= units@.len(),
            forall|j: int|
                0 <= j < i ==> !((#[trigger] units@[j]).side != u.side && units@[j].effective()
                    && hex_distance(units@[j].position, u.position) == 1),
        decreases units@.len() - i,
    {
        if units[i].side != u.side && units[i].is_combat_effective() && units[i].position.distance(
            u.position,
        ) == 1 {
            assert(units@[i as int].side != u.side);
            return true;
        }
        i += 1;
    }
    false
}

fn take_rest(u: BattalionUnit, rest: Rest) -> (v: BattalionUnit)
    ensures
        v == rested(u, rest),
{
    BattalionUnit { org: rest.org, org_ratio: rest.org_ratio, org_cents: rest.org_cents, ..u }
}

fn grind(u: BattalionUnit, rates: AttritionRates, level: EncirclementLevel, worn: Condition) -> (v: BattalionUnit)
    ensures
        v == ground_down(u, rates, level, worn),
{
    let counted = if u.is_combat_effective() {
        level
    } else {
        EncirclementLevel::Free
    };
    let costly = match counted {
        EncirclementLevel::Free => rates.free,
        EncirclementLevel::Partial => rates.partial,
        EncirclementLevel::Full => rates.full,
    };
    if !costly {
        u
    } else if worn.org != 0 {
        u.with_condition(worn)
    } else if counted == EncirclementLevel::Full {
        u.with_condition(worn).with_state(UnitState::Surrendered)
    } else {
        u.with_condition(worn).with_state(UnitState::Retreating)
    }
}

impl CombatEngine {
    /// Grinds down the encircled battalions at the end of a turn: `levels` says
    /// how far each is encircled, `worn` the condition that the attrition of
    /// that level leaves it in.
    pub fn apply_encirclement_attrition(
        &self,
        units: &mut Vec<BattalionUnit>,
        rates: AttritionRates,
        levels: &Vec<EncirclementLevel>,
        worn: &Vec<Condition>,
    )
        requires
            levels@.len() == old(units)@.len(),
            worn@.len() == old(units)@.len(),
        ensures
            final(units)@ == Seq::new(
                old(units)@.len(),
                |i: int| ground_down(old(units)@[i], rates, levels@[i], worn@[i]),
            ),
    {
        let mut i: usize = 0;
        while i < units.len()
            invariant
                i <= units@.len(),
                units@.len() == old(units)@.len(),
                levels@.len() == units@.len(),
                worn@.len() == units@.len(),
                forall|j: int|
                    0 <= j < i ==> #[trigger] units@[j] == ground_down(
                        old(units)@[j],
                        rates,
                        levels@[j],
                        worn@[j],
                    ),
                forall|j: int| i <= j < units@.len() ==> #[trigger] units@[j] == old(units)@[j],
            decreases units@.len() - i,
        {
            let u = grind(units[i], rates, levels[i], worn[i]);
            units.set(i, u);
            i += 1;
        }
    }

    /// Rests the battalions at the end of a full turn: `in_command` says which
    /// of them are in command, `rests` what rest would give them back.
    pub fn apply_command_regen(
        &self,
        units: &mut Vec<BattalionUnit>,
        in_command: &Vec<bool>,
        rests: &Vec<Rest>,
    )
        requires
            in_command@.len() == old(units)@.len(),
            rests@.len() == old(units)@.len(),
        ensures
            final(units)@ == regrouped(old(units)@, in_command@, rests@),
    {
        let field: Vec<BattalionUnit> = copy_units(units);
        let mut i: usize = 0;
        while i < units.len()
            invariant
                i <= units@.len(),
                field@ == old(units)@,
                units@.len() == field@.len(),
                in_command@.len() == units@.len(),
                rests@.len() == units@.len(),
                forall|j: int|
                    0 <= j < i ==> #[trigger] units@[j] == regrouped(field@, in_command@, rests@)[j],
                forall|j: int| i <= j < units@.len() ==> #[trigger] units@[j] == field@[j],
            decreases units@.len() - i,
        {
            if units[i].is_combat_effective() && in_command[i] && !has_adjacent_enemy(
                &field,
                &units[i],
            ) {
                let u = take_rest(units[i], rests[i]);
                units.set(i, u);
            }
            i += 1;
        }
        assert(units@ =~= regrouped(field@, in_command@, rests@));
    }
}

/// One battalion that left the battle: its share of organisation at that time,
/// by its bit pattern, is what the departure wiped.
#[derive(Debug, Clone, Copy, PartialEq, Eq, Structural)]
pub struct OobDeparture {
    pub unit_id: usize,
    pub side: Side,
    pub org_frac: u32,
}

/// How many consecutive turns the battalion has ended out of bounds.
pub open spec fn dwell(g: &HexGrid, u: BattalionUnit) -> u32 {
    if !g.out_of_bounds_at(u.position) {
        0
    } else if u.oob_turns == u32::MAX {
        u32::MAX
    } else {
        (u.oob_turns + 1) as u32
    }
}

/// The battalion leaves the battle at the end of this turn: it is on the board
/// and has dwelt out of bounds for long enough.
pub open spec fn leaves(g: &HexGrid, limit: u32, u: BattalionUnit) -> bool {
    u.on_board() && dwell(g, u) >= limit
}

/// The battalion at the end of the turn: one that leaves loses its
/// organisation and keeps its strength.
pub open spec fn turn_ended(g: &HexGrid, limit: u32, u: BattalionUnit) -> BattalionUnit {
    if !u.on_board() {
        u
    } else if leaves(g, limit, u) {
        BattalionUnit {
            org: 0,
            org_ratio: 0,
            org_cents: 0,
            state: UnitState::LeftBattle,
            position: offboard_hex(),
            move_to: None,
            is_holding: false,
            oob_turns: 0,
            ..u
        }
    } else {
        BattalionUnit { oob_turns: dwell(g, u), ..u }
    }
}

/// The departure of a battalion.
pub open spec fn departure(u: BattalionUnit) -> OobDeparture {
    OobDeparture { unit_id: u.id, side: u.side, org_frac: u.org_ratio }
}

fn end_turn_of(g: &HexGrid, limit: u32, u: BattalionUnit) -> (out: (BattalionUnit, bool))
    ensures
        out.0 == turn_ended(g, limit, u),
        out.1 == leaves(g, limit, u),
{
    if !u.is_on_board() {
        return (u, false);
    }
    let turns: u32 = if !g.is_out_of_bounds(u.position) {
        0
    } else if u.oob_turns == u32::MAX {
        u32::MAX
    } else {
        u.oob_turns + 1
    };
    if turns >= limit {
        (
            BattalionUnit {
                org: 0,
                org_ratio: 0,
                org_cents: 0,
                state: UnitState::LeftBattle,
                position: offboard(),
                move_to: None,
                is_holding: false,
                oob_turns: 0,
                ..u
            },
            true,
        )
    } else {
        (BattalionUnit { oob_turns: turns, ..u }, false)
    }
}

/// Ends a full turn for the battalions out of bounds: one that has dwelt there
/// for the rules' number of consecutive turns leaves the battle.
pub fn apply_oob_leaving(grid: &HexGrid, units: &mut Vec<BattalionUnit>, params: &CombatParams) -> (out: Vec<
    OobDeparture,
>)
    ensures
        final(units)@ == old(units)@.map_values(
            |u: BattalionUnit| turn_ended(grid, params.oob_leaving_turns, u),
        ),
        out@ == those_where(
            old(units)@,
            |u: BattalionUnit| leaves(grid, params.oob_leaving_turns, u),
        ).map_values(|u: BattalionUnit| departure(u)),
{
    let limit: u32 = params.oob_leaving_turns;
    let ghost all = units@;
    let ghost ok = |u: BattalionUnit| leaves(grid, params.oob_leaving_turns, u);
    let ghost dep = |u: BattalionUnit| departure(u);
    let mut out: Vec<OobDeparture> = Vec::new();
    let mut i: usize = 0;
    assert(all.take(0) =~= Seq::<BattalionUnit>::empty());
    assert(those_where(all.take(0), ok).map_values(dep) =~= Seq::<OobDeparture>::empty());
    while i < units.len()
        invariant
            i <= units@.len(),
            limit == params.oob_leaving_turns,
            all == old(units)@,
            units@.len() == all.len(),
            ok == (|u: BattalionUnit| leaves(grid, params.oob_leaving_turns, u)),
            dep == (|u: BattalionUnit| departure(u)),
            forall|j: int| 0 <= j < i ==> #[trigger] units@[j] == turn_ended(grid, limit, all[j]),
            forall|j: int| i <= j < units@.len() ==> #[trigger] units@[j] == all[j],
            out@ == those_where(all.take(i as int), ok).map_values(dep),
        decreases units@.len() - i,
    {
        let u = units[i];
        proof {
            assert(all.take(i + 1).drop_last() =~= all.take(i as int));
            assert(all.take(i + 1).last() == u);
            let rest = those_where(all.take(i as int), ok);
            assert(rest.push(u).map_values(dep) =~= rest.map_values(dep).push(dep(u)));
        }
        let (after, left) = end_turn_of(grid, limit, u);
        units.set(i, after);
        if left {
            out.push(OobDeparture { unit_id: u.id, side: u.side, org_frac: u.org_ratio });
        }
        i += 1;
    }
    assert(all.take(all.len() as int) =~= all);
    out
}

/// A shock lasts until the next turn end after the one that caused it: at the
/// turn end of the phase that caused it exactly the battalions that the phase
/// shocked stay shocked, and at the next turn end, without a fire phase, none
/// does. Nothing else about a battalion changes.
pub proof fn law_shock_lasts_until_the_next_turn_end(units: Seq<BattalionUnit>, lately: Seq<usize>, i: int)
    requires
        0 <= i < units.len(),
    ensures
        expired(units, lately).len() == units.len(),
        expired(units, lately)[i].shocked <==> units[i].shocked && lately.contains(units[i].id),
        expired(units, lately)[i] == (BattalionUnit {
            shocked: expired(units, lately)[i].shocked,
            ..units[i]
        }),
        !expired(expired(units, lately), Seq::empty())[i].shocked,
{
}

/// A battalion that leaves the battle slips away: it is off the board, without
/// organisation and with its strength, and no longer counts as fighting or
/// as a target.
pub proof fn law_departure_freezes_strength(g: &HexGrid, limit: u32, u: BattalionUnit)
    requires
        leaves(g, limit, u),
    ensures
        ({
            let v = turn_ended(g, limit, u);
            &&& v.strength == u.strength
            &&& v.org == 0
            &&& v.state == UnitState::LeftBattle
            &&& v.position == offboard_hex()
            &&& !v.on_board()
            &&& !v.effective()
            &&& !v.targetable()
        }),
{
}

/// Only consecutive turns out of bounds count: a battalion of the board that
/// ends a turn in bounds counts none, one that ends it out of bounds counts one
/// more than before, and one that is off the board is left alone.
pub proof fn law_only_consecutive_dwell_counts(g: &HexGrid, limit: u32, u: BattalionUnit)
    requires
        limit > 0,
    ensures
        !u.on_board() ==> turn_ended(g, limit, u) == u,
        u.on_board() && !g.out_of_bounds_at(u.position) ==> turn_ended(g, limit, u) == (BattalionUnit {
            oob_turns: 0,
            ..u
        }),
        u.on_board() && g.out_of_bounds_at(u.position) && u.oob_turns < limit - 1 ==> turn_ended(
            g,
            limit,
            u,
        ) == (BattalionUnit { oob_turns: (u.oob_turns + 1) as u32, ..u }),
        u.on_board() && g.out_of_bounds_at(u.position) && u.oob_turns >= limit - 1 ==> turn_ended(
            g,
            limit,
            u,
        ).state == UnitState::LeftBattle,
{
}

/// A battalion in contact with the enemy does not regroup, nor does one that
/// does not fight or is out of command; and rest changes nothing but
/// organisation.
pub proof fn law_rest_is_out_of_contact(
    units: Seq<BattalionUnit>,
    in_command: Seq<bool>,
    rests: Seq<Rest>,
    i: int,
)
    requires
        0 <= i < units.len(),
    ensures
        in_contact(units, units[i]) || !units[i].effective() || !in_command[i] ==> regrouped(
            units,
            in_command,
            rests,
        )[i] == units[i],
        ({
            let v = regrouped(units, in_command, rests)[i];
            v == BattalionUnit { org: v.org, org_ratio: v.org_ratio, org_cents: v.org_cents, ..units[i] }
        }),
{
}

/// Attrition surrenders a battalion only in full encirclement, and touches
/// only battalions that fight, as long as freedom costs nothing.
pub proof fn law_attrition_surrenders_only_the_fully_encircled(
    u: BattalionUnit,
    rates: AttritionRates,
    level: EncirclementLevel,
    worn: Condition,
)
    requires
        !rates.free,
    ensures
        !u.effective() ==> ground_down(u, rates, level, worn) == u,
        u.effective() ==> (ground_down(u, rates, level, worn).state == UnitState::Surrendered <==> level
            == EncirclementLevel::Full && rates.full && worn.org == 0),
        u.effective() ==> (ground_down(u, rates, level, worn).state == UnitState::Retreating <==> level
            == EncirclementLevel::Partial && rates.partial && worn.org == 0),
{
}

/// Every order that fizzled and every attack that was made is reported, and a
/// report says so exactly if its order fizzled.
pub proof fn law_every_attack_is_reported(
    p: CombatParams,
    before: Seq<BattalionUnit>,
    orders: Seq<AttackOrder>,
    sight: Seq<bool>,
    units: Seq<BattalionUnit>,
    damage: &DamageReport,
)
    requires
        before.len() <= usize::MAX,
    ensures
        ({
            let pl = planned(before, p, orders, sight);
            let out = all_reports(pl, units, damage);
            &&& out.len() == pl.lost.len() + pl.lanes.len()
            &&& forall|k: int|
                0 <= k < out.len() ==> (#[trigger] out[k]).target_lost == (k < pl.lost.len())
        }),
{
    law_orders_are_held_to_the_rules(p, before, orders, sight);
    let pl = planned(before, p, orders, sight);
    let out = all_reports(pl, units, damage);
    assert forall|k: int| 0 <= k < out.len() implies (#[trigger] out[k]).target_lost == (k
        < pl.lost.len()) by {
        if k < pl.lost.len() {
            assert(out[k] == pl.lost[k]);
        }
    }
}

/// Nothing that a fire phase is told leaves a battalion with more organisation or
/// strength than it had.
pub open spec fn told_losses(
    g: &HexGrid,
    rim: Seq<HexCoord>,
    pl: PlanView,
    damage: &DamageReport,
    ans: AnswerView,
) -> bool {
    &&& tolls_lower(pl.units, damage.tolls@)
    &&& shakes_lower(
        pl.units,
        fought_out(pl.units, damage.tolls@, ans, g, rim, pl.engagements),
        ans,
        pl.units.len(),
    )
}

/// The battalions are the same, in the same order, none has more organisation or
/// strength than before, and whoever was struck and has no strength left is
/// eliminated.
pub open spec fn worn_down(before: Seq<BattalionUnit>, after: Seq<BattalionUnit>, tolls: Seq<Toll>) -> bool {
    &&& after.len() == before.len()
    &&& forall|i: int|
        #![trigger before[i]]
        #![trigger after[i]]
        0 <= i < before.len() ==> {
            &&& after[i].id == before[i].id
            &&& after[i].org <= before[i].org
            &&& after[i].strength <= before[i].strength
            &&& tolls[i].hit && after[i].strength == 0 ==> after[i].state == UnitState::Eliminated
        }
}

proof fn lemma_fire_phase_wears_one(
    g: &HexGrid,
    rim: Seq<HexCoord>,
    p: CombatParams,
    units: Seq<BattalionUnit>,
    orders: Seq<AttackOrder>,
    reports: &FireReports,
    i: int,
)
    requires
        units.len() <= usize::MAX,
        0 <= i < units.len(),
        reports.damage matches Some(d) && d.tolls@.len() == units.len(),
    ensures
        fire_phase(g, rim, p, units, orders, reports) matches FireOutcome::Resolved {
            units: after,
            results: _,
            shocked: _,
            events: _,
        } ==> {
            let damage = reports.damage->0;
            let toll = damage.tolls@[i];
            &&& after.len() == units.len()
            &&& after[i].id == units[i].id
            &&& toll.hit && toll.condition.strength == 0 ==> after[i].state == UnitState::Eliminated
            &&& told_losses(g, rim, planned(units, p, orders, reports.sight@), &damage, reports.answers@) ==> {
                &&& after[i].org <= units[i].org
                &&& after[i].strength <= units[i].strength
                &&& toll.hit && after[i].strength == 0 ==> after[i].state == UnitState::Eliminated
            }
        },
{
    law_orders_are_held_to_the_rules(p, units, orders, reports.sight@);
    let pl = planned(units, p, orders, reports.sight@);
    let damage = reports.damage->0;
    assert forall|k: int| 0 <= k < pl.engagements.len() implies (#[trigger] pl.engagements[k]).attacker
        < pl.units.len() && pl.engagements[k].target < pl.units.len() by {}
    assert(pl.units[i].id == units[i].id && pl.units[i].org == units[i].org && pl.units[i].strength
        == units[i].strength);
    let f = settled(pl.units, damage.tolls@, reports.answers@, g, rim, pl.engagements).0;
    if f.missing is None {
        law_settlement_wears_down(pl.units, damage.tolls@, reports.answers@, g, rim, pl.engagements, i);
        let after = spent(f.units, pl.lanes);
        assert(after[i].id == f.units[i].id && after[i].org == f.units[i].org && after[i].strength
            == f.units[i].strength && after[i].state == f.units[i].state);
    }
}

/// Whatever a fire phase is told, the battalions stay the same, in the same order,
/// and whomever the fire left without strength is eliminated.
pub proof fn law_fire_phase_keeps_the_battalions(
    g: &HexGrid,
    rim: Seq<HexCoord>,
    p: CombatParams,
    units: Seq<BattalionUnit>,
    orders: Seq<AttackOrder>,
    reports: &FireReports,
    i: int,
)
    requires
        units.len() <= usize::MAX,
        0 <= i < units.len(),
        reports.damage matches Some(d) && d.tolls@.len() == units.len(),
    ensures
        fire_phase(g, rim, p, units, orders, reports) matches FireOutcome::Resolved {
            units: after,
            results: _,
            shocked: _,
            events: _,
        } ==> {
            let toll = reports.damage->0.tolls@[i];
            &&& after.len() == units.len()
            &&& after[i].id == units[i].id
            &&& toll.hit && toll.condition.strength == 0 ==> after[i].state == UnitState::Eliminated
        },
{
    lemma_fire_phase_wears_one(g, rim, p, units, orders, reports, i);
}

/// A fire phase that is told of losses only wears the battalions down, whenever it
/// is resolved.
pub proof fn law_fire_phase_wears_down(
    g: &HexGrid,
    rim: Seq<HexCoord>,
    p: CombatParams,
    units: Seq<BattalionUnit>,
    orders: Seq<AttackOrder>,
    reports: &FireReports,
)
    requires
        units.len() <= usize::MAX,
        reports.damage matches Some(d) && d.tolls@.len() == units.len() && told_losses(
            g,
            rim,
            planned(units, p, orders, reports.sight@),
            &d,
            reports.answers@,
        ),
    ensures
        fire_phase(g, rim, p, units, orders, reports) matches FireOutcome::Resolved {
            units: after,
            results: _,
            shocked: _,
            events: _,
        } ==> worn_down(units, after, reports.damage->0.tolls@),
{
    if let FireOutcome::Resolved { units: after, results, shocked, events } = fire_phase(
        g,
        rim,
        p,
        units,
        orders,
        reports,
    ) {
        let tolls = reports.damage->0.tolls@;
        if units.len() == 0 {
            law_orders_are_held_to_the_rules(p, units, orders, reports.sight@);
        } else {
            lemma_fire_phase_wears_one(g, rim, p, units, orders, reports, 0);
        }
        assert forall|i: int|
            #![trigger units[i]]
            #![trigger after[i]]
            0 <= i < units.len() implies {
            &&& after[i].id == units[i].id
            &&& after[i].org <= units[i].org
            &&& after[i].strength <= units[i].strength
            &&& tolls[i].hit && after[i].strength == 0 ==> after[i].state == UnitState::Eliminated
        } by {
            lemma_fire_phase_wears_one(g, rim, p, units, orders, reports, i);
        }
    }
}

} // verus!
