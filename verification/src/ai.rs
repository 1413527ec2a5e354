//! The tactic-driven planner of one side.
use vstd::prelude::*;
use crate::action::AiAction;
use crate::grid::HexGrid;
use crate::hex::{hex_distance, HexCoord};
use crate::pick::those_where;
use crate::planner::{division_plan, plan, plan_division, plan_of, turn_plan};
use crate::tactic::CombatTactic;
use crate::turn::{Book, DivOrderTarget, FlagZone, PlannerParams, Query, Spot, Turn, TurnView};
use crate::unit::{BattalionUnit, Side};

verus! {

/// The planner of one side for a whole battle.
#[derive(Debug, Clone, Copy, PartialEq, Eq, Structural)]
pub struct TacticalAi {
    pub side: Side,
    pub tactic: CombatTactic,
    pub params: PlannerParams,
}

/// What the planner is told of a turn as a whole.
#[derive(Debug, PartialEq, Eq)]
pub struct Outlook {
    /// Whether the enemy's power is more than three times the side's own.
    pub outmatched: bool,
    /// The hexes two steps away, as offsets, in the order in which they are
    /// listed.
    pub second_ring: Vec<HexCoord>,
}

/// The card that a side plays: an attacker without a doctrine advances.
pub open spec fn played(side: Side, tactic: CombatTactic) -> CombatTactic {
    if tactic == CombatTactic::Default && side == Side::Attacker {
        CombatTactic::Assault
    } else {
        tactic
    }
}

/// The battalions of the other side.
pub open spec fn opposing(side: Side) -> spec_fn(BattalionUnit) -> bool {
    |u: BattalionUnit| u.side != side
}

/// The turn of a whole side: all battalions in sight hold their hexes, and no
/// order of the player is given.
pub open spec fn side_turn<'a>(
    ai: TacticalAi,
    grid: &'a HexGrid,
    own: Seq<BattalionUnit>,
    enemy: Seq<BattalionUnit>,
    intel: Seq<Spot>,
    flags: Seq<FlagZone>,
    passive: Seq<BattalionUnit>,
    physical: Seq<BattalionUnit>,
    outlook: &Outlook,
) -> TurnView<'a> {
    TurnView {
        grid,
        side: ai.side,
        tactic: ai.tactic,
        params: ai.params,
        own,
        enemy,
        passive,
        all: own + enemy + passive,
        physical_foes: those_where(physical, opposing(ai.side)),
        intel,
        flags,
        order: None,
        outmatched: outlook.outmatched,
        second_ring: outlook.second_ring@,
    }
}

/// How far a division under orders looks for the enemy, at least one hex.
pub open spec fn sensor_radius(p: PlannerParams) -> int {
    if p.div_sensor_radius < 1 {
        1
    } else {
        p.div_sensor_radius as int
    }
}

/// The enemies near enough to a division to count as targets.
pub open spec fn sensed(p: PlannerParams, own: Seq<BattalionUnit>) -> spec_fn(BattalionUnit) -> bool {
    |e: BattalionUnit|
        exists|i: int|
            0 <= i < own.len() && hex_distance((#[trigger] own[i]).position, e.position)
                <= sensor_radius(p)
}

/// None of them has the id of the battalion.
pub open spec fn not_among(units: Seq<BattalionUnit>) -> spec_fn(BattalionUnit) -> bool {
    |e: BattalionUnit| forall|i: int| 0 <= i < units.len() ==> (#[trigger] units[i]).id != e.id
}

/// The turn of a division under the player's order: only near enemies are
/// targets, but far ones hold their hexes too.
pub open spec fn division_turn<'a>(
    ai: TacticalAi,
    grid: &'a HexGrid,
    own: Seq<BattalionUnit>,
    enemy: Seq<BattalionUnit>,
    intel: Seq<Spot>,
    flags: Seq<FlagZone>,
    order: Option<DivOrderTarget>,
    outlook: &Outlook,
) -> TurnView<'a> {
    let near = those_where(enemy, sensed(ai.params, own));
    TurnView {
        grid,
        side: ai.side,
        tactic: ai.tactic,
        params: ai.params,
        own,
        enemy: near,
        passive: Seq::empty(),
        all: own + near + those_where(enemy, not_among(near)),
        physical_foes: Seq::empty(),
        intel,
        flags,
        order,
        outmatched: outlook.outmatched,
        second_ring: outlook.second_ring@,
    }
}

/// The hexes of a list that may be missing.
pub open spec fn listed<A>(v: Option<&Vec<A>>) -> Seq<A> {
    match v {
        Some(s) => s@,
        None => Seq::empty(),
    }
}

/// The zone of a single hex.
pub open spec fn single(objective: Option<HexCoord>) -> Seq<Spot> {
    match objective {
        Some(hex) => seq![Spot { hex, off_centre: 0 }],
        None => Seq::empty(),
    }
}

fn append(to: &mut Vec<BattalionUnit>, from: &Vec<BattalionUnit>)
    ensures
        final(to)@ == old(to)@ + from@,
{
    let mut i: usize = 0;
    while i < from.len()
        invariant
            i <= from@.len(),
            to@ =~= old(to)@ + from@.take(i as int),
        decreases from@.len() - i,
    {
        to.push(from[i]);
        i += 1;
    }
    assert(from@.take(from@.len() as int) =~= from@);
}

fn copy_of(from: &Vec<BattalionUnit>) -> (v: Vec<BattalionUnit>)
    ensures
        v@ == from@,
{
    let mut v: Vec<BattalionUnit> = Vec::new();
    append(&mut v, from);
    assert(v@ =~= from@);
    v
}

fn opponents(units: &Vec<BattalionUnit>, side: Side) -> (v: Vec<BattalionUnit>)
    ensures
        v@ == those_where(units@, opposing(side)),
{
    let ghost ok = opposing(side);
    let mut v: Vec<BattalionUnit> = Vec::new();
    let mut i: usize = 0;
    assert(units@.take(0) =~= Seq::<BattalionUnit>::empty());
    while i < units.len()
        invariant
            i <= units@.len(),
            ok == opposing(side),
            v@ == those_where(units@.take(i as int), ok),
        decreases units@.len() - i,
    {
        assert(units@.take(i + 1).drop_last() =~= units@.take(i as int));
        if units[i].side != side {
            v.push(units[i]);
        }
        i += 1;
    }
    assert(units@.take(units@.len() as int) =~= units@);
    v
}

fn is_sensed(p: PlannerParams, own: &Vec<BattalionUnit>, e: &BattalionUnit) -> (b: bool)
    ensures
        b == sensed(p, own@)(*e),
{
    let radius: i64 = if p.div_sensor_radius < 1 {
        1
    } else {
        p.div_sensor_radius as i64
    };
    let mut i: usize = 0;
    while i < own.len()
        invariant
            i <= own@.len(),
            radius == sensor_radius(p),
            forall|j: int|
                0 <= j < i ==> hex_distance((#[trigger] own@[j]).position, e.position) > radius,
        decreases own@.len() - i,
    {
        if own[i].position.distance(e.position) <= radius {
            assert(hex_distance(own@[i as int].position, e.position) <= radius);
            return true;
        }
        i += 1;
    }
    false
}

fn sense(p: PlannerParams, own: &Vec<BattalionUnit>, enemy: &Vec<BattalionUnit>) -> (v: Vec<BattalionUnit>)
    ensures
        v@ == those_where(enemy@, sensed(p, own@)),
{
    let ghost ok = sensed(p, own@);
    let mut v: Vec<BattalionUnit> = Vec::new();
    let mut i: usize = 0;
    assert(enemy@.take(0) =~= Seq::<BattalionUnit>::empty());
    while i < enemy.len()
        invariant
            i <= enemy@.len(),
            ok == sensed(p, own@),
            v@ == those_where(enemy@.take(i as int), ok),
        decreases enemy@.len() - i,
    {
        assert(enemy@.take(i + 1).drop_last() =~= enemy@.take(i as int));
        if is_sensed(p, own, &enemy[i]) {
            v.push(enemy[i]);
        }
        i += 1;
    }
    assert(enemy@.take(enemy@.len() as int) =~= enemy@);
    v
}

fn is_not_among(units: &Vec<BattalionUnit>, e: &BattalionUnit) -> (b: bool)
    ensures
        b == not_among(units@)(*e),
{
    let mut i: usize = 0;
    while i < units.len()
        invariant
            i <= units@.len(),
            forall|j: int| 0 <= j < i ==> (#[trigger] units@[j]).id != e.id,
        decreases units@.len() - i,
    {
        if units[i].id == e.id {
            assert(units@[i as int].id == e.id);
            return false;
        }
        i += 1;
    }
    true
}

fn others(units: &Vec<BattalionUnit>, near: &Vec<BattalionUnit>) -> (v: Vec<BattalionUnit>)
    ensures
        v@ == those_where(units@, not_among(near@)),
{
    let ghost ok = not_among(near@);
    let mut v: Vec<BattalionUnit> = Vec::new();
    let mut i: usize = 0;
    assert(units@.take(0) =~= Seq::<BattalionUnit>::empty());
    while i < units.len()
        invariant
            i <= units@.len(),
            ok == not_among(near@),
            v@ == those_where(units@.take(i as int), ok),
        decreases units@.len() - i,
    {
        assert(units@.take(i + 1).drop_last() =~= units@.take(i as int));
        if is_not_among(near, &units[i]) {
            v.push(units[i]);
        }
        i += 1;
    }
    assert(units@.take(units@.len() as int) =~= units@);
    v
}

impl TacticalAi {
    /// The planner of a side that was dealt a card.
    pub fn new(side: Side, tactic: CombatTactic, params: PlannerParams) -> (ai: TacticalAi)
        ensures
            ai == (TacticalAi { side, tactic: played(side, tactic), params }),
    {
        let card = match (tactic, side) {
            (CombatTactic::Default, Side::Attacker) => CombatTactic::Assault,
            _ => tactic,
        };
        TacticalAi { side, tactic: card, params }
    }

    /// Plans a turn with nothing known beyond what is in sight.
    pub fn plan_turn(
        &self,
        grid: &HexGrid,
        own_units: &Vec<BattalionUnit>,
        enemy_units: &Vec<BattalionUnit>,
        outlook: &Outlook,
        book: &Book,
    ) -> (r: Result<Vec<AiAction>, Query>)
        ensures
            plan_of(r) == turn_plan(
                side_turn(
                    *self,
                    grid,
                    own_units@,
                    enemy_units@,
                    Seq::empty(),
                    Seq::empty(),
                    Seq::empty(),
                    Seq::empty(),
                    outlook,
                ),
                book,
            ),
    {
        self.plan_turn_toward(grid, own_units, enemy_units, None, outlook, book)
    }

    /// Plans a turn with an objective to march on while no enemy is in sight.
    pub fn plan_turn_toward(
        &self,
        grid: &HexGrid,
        own_units: &Vec<BattalionUnit>,
        enemy_units: &Vec<BattalionUnit>,
        objective: Option<HexCoord>,
        outlook: &Outlook,
        book: &Book,
    ) -> (r: Result<Vec<AiAction>, Query>)
        ensures
            plan_of(r) == turn_plan(
                side_turn(
                    *self,
                    grid,
                    own_units@,
                    enemy_units@,
                    single(objective),
                    Seq::empty(),
                    Seq::empty(),
                    Seq::empty(),
                    outlook,
                ),
                book,
            ),
    {
        let mut intel: Vec<Spot> = Vec::new();
        if let Some(hex) = objective {
            intel.push(Spot { hex, off_centre: 0 });
        }
        assert(intel@ =~= single(objective));
        self.plan_turn_zone(grid, own_units, enemy_units, Some(&intel), outlook, book)
    }

    /// Plans a turn with knowledge of the enemy's deployment zone.
    pub fn plan_turn_zone(
        &self,
        grid: &HexGrid,
        own_units: &Vec<BattalionUnit>,
        enemy_units: &Vec<BattalionUnit>,
        intel_zone: Option<&Vec<Spot>>,
        outlook: &Outlook,
        book: &Book,
    ) -> (r: Result<Vec<AiAction>, Query>)
        ensures
            plan_of(r) == turn_plan(
                side_turn(
                    *self,
                    grid,
                    own_units@,
                    enemy_units@,
                    listed(intel_zone),
                    Seq::empty(),
                    Seq::empty(),
                    Seq::empty(),
                    outlook,
                ),
                book,
            ),
    {
        self.plan_turn_flags(grid, own_units, enemy_units, intel_zone, None, None, outlook, book)
    }

    /// Plans a turn of a battle with flags, among battalions of the same side
    /// that are not to be commanded.
    pub fn plan_turn_flags(
        &self,
        grid: &HexGrid,
        own_units: &Vec<BattalionUnit>,
        enemy_units: &Vec<BattalionUnit>,
        intel_zone: Option<&Vec<Spot>>,
        flags: Option<&Vec<FlagZone>>,
        passive_friendlies: Option<&Vec<BattalionUnit>>,
        outlook: &Outlook,
        book: &Book,
    ) -> (r: Result<Vec<AiAction>, Query>)
        ensures
            plan_of(r) == turn_plan(
                side_turn(
                    *self,
                    grid,
                    own_units@,
                    enemy_units@,
                    listed(intel_zone),
                    listed(flags),
                    listed(passive_friendlies),
                    Seq::empty(),
                    outlook,
                ),
                book,
            ),
    {
        self.plan_turn_full(
            grid,
            own_units,
            enemy_units,
            intel_zone,
            flags,
            passive_friendlies,
            None,
            outlook,
            book,
        )
    }

    /// Plans a turn with all that may be known; `physical_foes` are the enemy's
    /// battalions whether in sight or not, which a march stumbles upon.
    pub fn plan_turn_full(
        &self,
        grid: &HexGrid,
        own_units: &Vec<BattalionUnit>,
        enemy_units: &Vec<BattalionUnit>,
        intel_zone: Option<&Vec<Spot>>,
        flags: Option<&Vec<FlagZone>>,
        passive_friendlies: Option<&Vec<BattalionUnit>>,
        physical_foes: Option<&Vec<BattalionUnit>>,
        outlook: &Outlook,
        book: &Book,
    ) -> (r: Result<Vec<AiAction>, Query>)
        ensures
            plan_of(r) == turn_plan(
                side_turn(
                    *self,
                    grid,
                    own_units@,
                    enemy_units@,
                    listed(intel_zone),
                    listed(flags),
                    listed(passive_friendlies),
                    listed(physical_foes),
                    outlook,
                ),
                book,
            ),
    {
        let no_spots: Vec<Spot> = Vec::new();
        let no_flags: Vec<FlagZone> = Vec::new();
        let no_units: Vec<BattalionUnit> = Vec::new();
        let intel: &Vec<Spot> = match intel_zone {
            Some(z) => z,
            None => &no_spots,
        };
        let flags: &Vec<FlagZone> = match flags {
            Some(f) => f,
            None => &no_flags,
        };
        let passive: &Vec<BattalionUnit> = match passive_friendlies {
            Some(p) => p,
            None => &no_units,
        };
        let physical: &Vec<BattalionUnit> = match physical_foes {
            Some(p) => p,
            None => &no_units,
        };
        let t = self.survey(
            grid,
            own_units,
            enemy_units,
            intel,
            flags,
            passive,
            physical,
            outlook,
        );
        plan(&t, book)
    }

    /// What the planner of a side sees at the start of its turn.
    pub fn survey<'a>(
        &self,
        grid: &'a HexGrid,
        own_units: &Vec<BattalionUnit>,
        enemy_units: &Vec<BattalionUnit>,
        intel: &'a Vec<Spot>,
        flags: &'a Vec<FlagZone>,
        passive: &Vec<BattalionUnit>,
        physical: &Vec<BattalionUnit>,
        outlook: &'a Outlook,
    ) -> (t: Turn<'a>)
        ensures
            t@ == side_turn(
                *self,
                grid,
                own_units@,
                enemy_units@,
                intel@,
                flags@,
                passive@,
                physical@,
                outlook,
            ),
    {
        let mut all: Vec<BattalionUnit> = copy_of(own_units);
        append(&mut all, enemy_units);
        append(&mut all, passive);
        let t = Turn {
            grid,
            side: self.side,
            tactic: self.tactic,
            params: self.params,
            own: copy_of(own_units),
            enemy: copy_of(enemy_units),
            passive: copy_of(passive),
            all,
            physical_foes: opponents(physical, self.side),
            intel,
            flags,
            order: None,
            outmatched: outlook.outmatched,
            second_ring: &outlook.second_ring,
        };
        assert(t@ =~= side_turn(
            *self,
            grid,
            own_units@,
            enemy_units@,
            intel@,
            flags@,
            passive@,
            physical@,
            outlook,
        ));
        t
    }

    /// Plans the turn of a division under the player's order.
    pub fn plan_turn_div_order(
        &self,
        grid: &HexGrid,
        own_units: &Vec<BattalionUnit>,
        enemy_units: &Vec<BattalionUnit>,
        intel_zone: Option<&Vec<Spot>>,
        flags: Option<&Vec<FlagZone>>,
        order: Option<DivOrderTarget>,
        outlook: &Outlook,
        book: &Book,
    ) -> (r: Result<Vec<AiAction>, Query>)
        ensures
            plan_of(r) == division_plan(
                division_turn(
                    *self,
                    grid,
                    own_units@,
                    enemy_units@,
                    listed(intel_zone),
                    listed(flags),
                    order,
                    outlook,
                ),
                book,
            ),
    {
        let no_spots: Vec<Spot> = Vec::new();
        let no_flags: Vec<FlagZone> = Vec::new();
        let intel: &Vec<Spot> = match intel_zone {
            Some(z) => z,
            None => &no_spots,
        };
        let flags: &Vec<FlagZone> = match flags {
            Some(f) => f,
            None => &no_flags,
        };
        let t = self.survey_division(grid, own_units, enemy_units, intel, flags, order, outlook);
        plan_division(&t, book)
    }

    /// What the planner of a division under the player's order sees: of the
    /// enemies only those that the division senses are its targets.
    pub fn survey_division<'a>(
        &self,
        grid: &'a HexGrid,
        own_units: &Vec<BattalionUnit>,
        enemy_units: &Vec<BattalionUnit>,
        intel: &'a Vec<Spot>,
        flags: &'a Vec<FlagZone>,
        order: Option<DivOrderTarget>,
        outlook: &'a Outlook,
    ) -> (t: Turn<'a>)
        ensures
            t@ == division_turn(
                *self,
                grid,
                own_units@,
                enemy_units@,
                intel@,
                flags@,
                order,
                outlook,
            ),
    {
        let near: Vec<BattalionUnit> = sense(self.params, own_units, enemy_units);
        let far: Vec<BattalionUnit> = others(enemy_units, &near);
        let mut all: Vec<BattalionUnit> = copy_of(own_units);
        append(&mut all, &near);
        append(&mut all, &far);
        let t = Turn {
            grid,
            side: self.side,
            tactic: self.tactic,
            params: self.params,
            own: copy_of(own_units),
            enemy: near,
            passive: Vec::new(),
            all,
            physical_foes: Vec::new(),
            intel,
            flags,
            order,
            outmatched: outlook.outmatched,
            second_ring: &outlook.second_ring,
        };
        assert(t@ =~= division_turn(
            *self,
            grid,
            own_units@,
            enemy_units@,
            intel@,
            flags@,
            order,
            outlook,
        ));
        t
    }
}

} // verus!
