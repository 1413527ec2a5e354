//! The fire phase, last part: what the damage does to the battalions.
//!
//! Broken defenders surrender or rout, assaulting battalions take the hexes
//! that were vacated, wiped-out battalions leave the field, and the loss of a
//! headquarters shakes its division. Whether a battalion is fully encircled,
//! and how much organisation a shaken battalion loses, are answers from
//! outside: they are read off two lists in the order in which they are needed,
//! and the first answer that is missing is asked for.
use vstd::prelude::*;
use crate::fire::{CombatResult, Engagement, Lane};
use crate::grid::{full_compass, HexGrid};
use crate::hex::HexCoord;
use crate::retreat::{
    exit_hexes, law_retreat_respects_stacking, retreat_result, retreat_to_rim, retreated, unit_index, WayOff,
};
use crate::unit::{BattalionUnit, Condition, UnitState};

verus! {

/// What the fire did to a battalion.
#[derive(Debug, Clone, Copy, PartialEq, Eq, Structural)]
pub struct Toll {
    /// Its condition after all the fire.
    pub condition: Condition,
    /// Whether it was struck at all.
    pub hit: bool,
    /// Whether the fire of this phase shocked it.
    pub stunned: bool,
}

/// The damage of one attack, by bit patterns.
#[derive(Debug, Clone, Copy, PartialEq, Eq, Structural)]
pub struct LaneDamage {
    pub org_dealt: u32,
    pub str_dealt: u32,
    pub org_taken: u32,
    pub str_taken: u32,
}

/// What the loss of its headquarters costs a battalion.
#[derive(Debug, Clone, Copy, PartialEq, Eq, Structural)]
pub struct Shake {
    /// The organisation lost, by its bit pattern.
    pub lost: u32,
    /// The condition that it is left in.
    pub condition: Condition,
}

/// An answer from outside that is missing, by the index of the battalion.
#[derive(Debug, Clone, Copy, PartialEq, Eq, Structural)]
pub enum Missing {
    /// Whether the battalion is fully encircled.
    Encircled(usize),
    /// What the loss of its headquarters costs it.
    Shaken(usize),
}

/// The loss of a division's headquarters and the collapse of command that
/// follows it.
#[derive(Debug, Clone, PartialEq, Eq)]
pub struct HqLossEvent {
    pub hq_id: usize,
    pub division: usize,
    /// The battalions that it cost organisation, and how much, by bit pattern.
    pub losses: Vec<(usize, u32)>,
    /// The battalions that it broke.
    pub broke: Vec<usize>,
}

/// The loss of a headquarters as a value.
#[verifier::ext_equal]
pub struct HqLoss {
    pub hq_id: usize,
    pub division: usize,
    pub losses: Seq<(usize, u32)>,
    pub broke: Seq<usize>,
}

impl View for HqLossEvent {
    type V = HqLoss;

    open spec fn view(&self) -> HqLoss {
        HqLoss {
            hq_id: self.hq_id,
            division: self.division,
            losses: self.losses@,
            broke: self.broke@,
        }
    }
}

/// The events as values.
pub open spec fn event_views(events: Seq<HqLossEvent>) -> Seq<HqLoss> {
    events.map_values(|e: HqLossEvent| e@)
}

/// The field while the damage is settled: the battalions, how many of the
/// answers have been read, and the answer that is missing.
#[verifier::ext_equal]
pub struct FieldView {
    pub units: Seq<BattalionUnit>,
    pub rings_read: nat,
    pub shakes_read: nat,
    pub missing: Option<Missing>,
}

/// The answers from outside.
#[verifier::ext_equal]
pub struct AnswerView {
    pub rings: Seq<bool>,
    pub shakes: Seq<Shake>,
}

pub struct Field {
    pub units: Vec<BattalionUnit>,
    pub rings_read: usize,
    pub shakes_read: usize,
    pub missing: Option<Missing>,
}

impl View for Field {
    type V = FieldView;

    open spec fn view(&self) -> FieldView {
        FieldView {
            units: self.units@,
            rings_read: self.rings_read as nat,
            shakes_read: self.shakes_read as nat,
            missing: self.missing,
        }
    }
}

/// The answers from outside: of each broken battalion in turn whether it was
/// fully encircled, and of each shaken battalion in turn what it lost.
#[derive(Debug, PartialEq, Eq)]
pub struct Answers {
    pub rings: Vec<bool>,
    pub shakes: Vec<Shake>,
}

impl View for Answers {
    type V = AnswerView;

    open spec fn view(&self) -> AnswerView {
        AnswerView { rings: self.rings@, shakes: self.shakes@ }
    }
}

/// Battalion `i` breaks: fully encircled it surrenders, else it routs.
pub open spec fn broken(f: FieldView, ans: AnswerView, i: int) -> FieldView {
    if f.rings_read < ans.rings.len() {
        let state = if ans.rings[f.rings_read as int] {
            UnitState::Surrendered
        } else {
            UnitState::Retreating
        };
        FieldView {
            units: f.units.update(i, f.units[i].in_state(state)),
            rings_read: f.rings_read + 1,
            ..f
        }
    } else {
        FieldView { missing: Some(Missing::Encircled(i as usize)), ..f }
    }
}

/// An assault by battalion `a` on battalion `d` is settled: a defender without
/// organisation breaks; if it routs and gets away, the attacker, if it still
/// fights, takes the hex.
pub open spec fn assault_settled(
    f: FieldView,
    ans: AnswerView,
    g: &HexGrid,
    rim: Seq<HexCoord>,
    a: int,
    d: int,
) -> FieldView {
    let u = f.units[d];
    if u.org == 0 && (u.state == UnitState::Active || u.state == UnitState::Withdrawn) {
        let next = broken(f, ans, d);
        if next.missing is Some || next.units[d].state == UnitState::Surrendered {
            next
        } else {
            let (units, away) = retreat_result(g, next.units, u.id, true, rim);
            if away && units[a].effective() {
                FieldView { units: units.update(a, units[a].at_hex(u.position)), ..next }
            } else {
                FieldView { units, ..next }
            }
        }
    } else {
        f
    }
}

/// The assaults are settled one after the other.
pub open spec fn assaults_settled(
    f: FieldView,
    ans: AnswerView,
    g: &HexGrid,
    rim: Seq<HexCoord>,
    e: Seq<Engagement>,
) -> FieldView
    decreases e.len(),
{
    if e.len() == 0 {
        f
    } else {
        let rest = assaults_settled(f, ans, g, rim, e.drop_last());
        if rest.missing is Some || !e.last().assault {
            rest
        } else {
            assault_settled(rest, ans, g, rim, e.last().attacker as int, e.last().target as int)
        }
    }
}

/// The struck battalions whose strength is wiped out are gone.
pub open spec fn wiped_out(units: Seq<BattalionUnit>, tolls: Seq<Toll>) -> Seq<BattalionUnit> {
    Seq::new(
        units.len(),
        |i: int|
            if tolls[i].hit && units[i].strength == 0 {
                units[i].in_state(UnitState::Eliminated)
            } else {
                units[i]
            },
    )
}

/// Of the first `n` battalions, those that were struck, stand and have no
/// organisation left break.
pub open spec fn breaks_settled(f: FieldView, ans: AnswerView, tolls: Seq<Toll>, n: nat) -> FieldView
    decreases n,
{
    if n == 0 {
        f
    } else {
        let rest = breaks_settled(f, ans, tolls, (n - 1) as nat);
        let u = rest.units[n - 1];
        if rest.missing is None && tolls[n - 1].hit && u.org == 0 && u.state == UnitState::Active {
            broken(rest, ans, n - 1)
        } else {
            rest
        }
    }
}

/// A division while the loss of its headquarters shakes it: what its
/// battalions lost, and which of them are without organisation.
#[verifier::ext_equal]
pub struct CollapseView {
    pub field: FieldView,
    pub losses: Seq<(usize, u32)>,
    pub falling: Seq<usize>,
}

/// The battalion is shaken by the loss of headquarters `hq`: it stands and
/// belongs to the same division.
pub open spec fn shaken_by(units: Seq<BattalionUnit>, hq: int, i: int) -> bool {
    i != hq && units[i].division == units[hq].division && units[i].state == UnitState::Active
}

/// One battalion is shaken.
pub open spec fn shaken(c: CollapseView, ans: AnswerView, i: int) -> CollapseView {
    let f = c.field;
    if f.shakes_read < ans.shakes.len() {
        let s = ans.shakes[f.shakes_read as int];
        let read = FieldView { shakes_read: f.shakes_read + 1, ..f };
        if s.lost == 0 {
            CollapseView { field: read, ..c }
        } else {
            CollapseView {
                field: FieldView { units: f.units.update(i, f.units[i].in_condition(s.condition)), ..read },
                losses: c.losses.push((f.units[i].id, s.lost)),
                falling: if s.condition.org == 0 {
                    c.falling.push(i as usize)
                } else {
                    c.falling
                },
            }
        }
    } else {
        CollapseView { field: FieldView { missing: Some(Missing::Shaken(i as usize)), ..f }, ..c }
    }
}

/// The first `n` battalions are shaken, as far as they belong to the division.
pub open spec fn division_shaken(f: FieldView, ans: AnswerView, hq: int, n: nat) -> CollapseView
    decreases n,
{
    if n == 0 {
        CollapseView { field: f, losses: Seq::empty(), falling: Seq::empty() }
    } else {
        let rest = division_shaken(f, ans, hq, (n - 1) as nat);
        if rest.field.missing is None && shaken_by(rest.field.units, hq, n - 1) {
            shaken(rest, ans, n - 1)
        } else {
            rest
        }
    }
}

/// The battalions break one after the other.
pub open spec fn all_broken(f: FieldView, ans: AnswerView, falling: Seq<usize>) -> FieldView
    decreases falling.len(),
{
    if falling.len() == 0 {
        f
    } else {
        let rest = all_broken(f, ans, falling.drop_last());
        if rest.missing is Some {
            rest
        } else {
            broken(rest, ans, falling.last() as int)
        }
    }
}

/// The headquarters `i` stood before the phase and is gone.
pub open spec fn hq_lost(before: Seq<BattalionUnit>, now: Seq<BattalionUnit>, i: int) -> bool {
    &&& before[i].kind.hq
    &&& before[i].state != UnitState::Eliminated
    &&& now[i].state == UnitState::Eliminated
}

/// The loss of headquarters `hq` is settled.
pub open spec fn collapse_settled(f: FieldView, ans: AnswerView, hq: int) -> (FieldView, HqLoss) {
    let c = division_shaken(f, ans, hq, f.units.len());
    let after = if c.field.missing is Some {
        c.field
    } else {
        all_broken(c.field, ans, c.falling)
    };
    (
        after,
        HqLoss {
            hq_id: f.units[hq].id,
            division: f.units[hq].division,
            losses: c.losses,
            broke: c.falling.map_values(|i: usize| after.units[i as int].id),
        },
    )
}

/// The loss of each of the first `n` battalions that is a headquarters is
/// settled.
pub open spec fn collapses_settled(
    before: Seq<BattalionUnit>,
    f: FieldView,
    ans: AnswerView,
    n: nat,
) -> (FieldView, Seq<HqLoss>)
    decreases n,
{
    if n == 0 {
        (f, Seq::empty())
    } else {
        let (rest, events) = collapses_settled(before, f, ans, (n - 1) as nat);
        if rest.missing is None && hq_lost(before, rest.units, n - 1) {
            let (next, event) = collapse_settled(rest, ans, n - 1);
            (next, events.push(event))
        } else {
            (rest, events)
        }
    }
}

/// The battalions in the condition that the fire left them in; those that it
/// shocked are marked.
pub open spec fn under_fire(units: Seq<BattalionUnit>, tolls: Seq<Toll>) -> Seq<BattalionUnit> {
    Seq::new(
        units.len(),
        |i: int|
            {
                let u = units[i].in_condition(tolls[i].condition);
                if tolls[i].stunned {
                    BattalionUnit { shocked: true, ..u }
                } else {
                    u
                }
            },
    )
}

/// Battalion `i` attacked in one of the lanes.
pub open spec fn attacked(lanes: Seq<Lane>, i: int) -> bool {
    exists|k: int| 0 <= k < lanes.len() && (#[trigger] lanes[k]).attacker == i
}

/// The battalions that attacked have spent their attack.
pub open spec fn spent(units: Seq<BattalionUnit>, lanes: Seq<Lane>) -> Seq<BattalionUnit> {
    Seq::new(
        units.len(),
        |i: int|
            if attacked(lanes, i) {
                units[i].after_attack()
            } else {
                units[i]
            },
    )
}

/// Battalion `a` assaulted battalion `d`.
pub open spec fn assaulted(e: Seq<Engagement>, a: int, d: int) -> bool {
    exists|k: int|
        0 <= k < e.len() && (#[trigger] e[k]).assault && e[k].attacker == a && e[k].target == d
}

/// The report on one attack; a shock is reported only if the fire of this phase
/// caused it.
pub open spec fn reported(
    units: Seq<BattalionUnit>,
    tolls: Seq<Toll>,
    e: Seq<Engagement>,
    lane: Lane,
    dmg: LaneDamage,
) -> CombatResult {
    let a = units[lane.attacker as int];
    let d = units[lane.defender as int];
    CombatResult {
        attacker_id: a.id,
        defender_id: d.id,
        hex: lane.hex,
        org_damage_dealt: dmg.org_dealt,
        str_damage_dealt: dmg.str_dealt,
        org_damage_taken: dmg.org_taken,
        str_damage_taken: dmg.str_taken,
        defender_broken: d.state == UnitState::Retreating && dmg.org_dealt != 0 && d.org == 0,
        advanced: assaulted(e, lane.attacker as int, lane.defender as int) && a.position == lane.hex
            && a.effective(),
        surrendered: d.state == UnitState::Surrendered,
        eliminated: d.state == UnitState::Eliminated,
        shocked_defender: tolls[lane.defender as int].stunned,
        shocked_attacker: tolls[lane.attacker as int].stunned,
        target_lost: false,
    }
}

/// The field after all of the damage is settled, and the events.
pub open spec fn settled(
    before: Seq<BattalionUnit>,
    tolls: Seq<Toll>,
    ans: AnswerView,
    g: &HexGrid,
    rim: Seq<HexCoord>,
    e: Seq<Engagement>,
) -> (FieldView, Seq<HqLoss>) {
    let start = FieldView {
        units: under_fire(before, tolls),
        rings_read: 0,
        shakes_read: 0,
        missing: None,
    };
    let f1 = assaults_settled(start, ans, g, rim, e);
    if f1.missing is Some {
        (f1, Seq::empty())
    } else {
        let f2 = FieldView { units: wiped_out(f1.units, tolls), ..f1 };
        let f3 = breaks_settled(f2, ans, tolls, before.len());
        if f3.missing is Some {
            (f3, Seq::empty())
        } else {
            collapses_settled(before, f3, ans, before.len())
        }
    }
}

fn break_unit(f: &mut Field, ans: &Answers, i: usize)
    requires
        i < old(f).units@.len(),
    ensures
        final(f)@ == broken(old(f)@, ans@, i as int),
        final(f).units@.len() == old(f).units@.len(),
{
    if f.rings_read < ans.rings.len() {
        let state = if ans.rings[f.rings_read] {
            UnitState::Surrendered
        } else {
            UnitState::Retreating
        };
        let u = f.units[i].with_state(state);
        f.units.set(i, u);
        f.rings_read = f.rings_read + 1;
    } else {
        f.missing = Some(Missing::Encircled(i));
    }
}

proof fn lemma_retreat_keeps_count(
    g: &HexGrid,
    units: Seq<BattalionUnit>,
    id: usize,
    toward: bool,
    rim: Seq<HexCoord>,
)
    ensures
        retreat_result(g, units, id, toward, rim).0.len() == units.len(),
{
    crate::pick::law_first_where(units, |u: BattalionUnit| u.id == id);
}

fn settle_assault(f: &mut Field, ans: &Answers, g: &HexGrid, rim: &Vec<HexCoord>, a: usize, d: usize)
    requires
        a < old(f).units@.len(),
        d < old(f).units@.len(),
        old(f).missing is None,
    ensures
        final(f)@ == assault_settled(old(f)@, ans@, g, rim@, a as int, d as int),
        final(f).units@.len() == old(f).units@.len(),
{
    let u = f.units[d];
    if u.org == 0 && (u.state == UnitState::Active || u.state == UnitState::Withdrawn) {
        break_unit(f, ans, d);
        if f.missing.is_none() && f.units[d].state != UnitState::Surrendered {
            proof {
                lemma_retreat_keeps_count(g, f.units@, u.id, true, rim@);
            }
            let away = retreat_to_rim(g, &mut f.units, u.id, true, rim);
            if away && f.units[a].is_combat_effective() {
                let moved = f.units[a].with_position(u.position);
                f.units.set(a, moved);
            }
        }
    }
}

fn settle_assaults(f: &mut Field, ans: &Answers, g: &HexGrid, rim: &Vec<HexCoord>, e: &Vec<Engagement>)
    requires
        old(f).missing is None,
        forall|k: int|
            0 <= k < e@.len() ==> (#[trigger] e@[k]).attacker < old(f).units@.len() && e@[k].target
                < old(f).units@.len(),
    ensures
        final(f)@ == assaults_settled(old(f)@, ans@, g, rim@, e@),
        final(f).units@.len() == old(f).units@.len(),
{
    let mut k: usize = 0;
    assert(e@.take(0) =~= Seq::<Engagement>::empty());
    while k < e.len()
        invariant
            k <= e@.len(),
            forall|k: int|
                0 <= k < e@.len() ==> (#[trigger] e@[k]).attacker < f.units@.len() && e@[k].target
                    < f.units@.len(),
            f.units@.len() == old(f).units@.len(),
            f@ == assaults_settled(old(f)@, ans@, g, rim@, e@.take(k as int)),
        decreases e@.len() - k,
    {
        assert(e@.take(k + 1).drop_last() =~= e@.take(k as int));
        assert(e@.take(k + 1).last() == e@[k as int]);
        if f.missing.is_none() && e[k].assault {
            settle_assault(f, ans, g, rim, e[k].attacker, e[k].target);
        }
        k += 1;
    }
    assert(e@.take(e@.len() as int) =~= e@);
}

fn wipe_out(units: &mut Vec<BattalionUnit>, tolls: &Vec<Toll>)
    requires
        tolls@.len() == old(units)@.len(),
    ensures
        final(units)@ == wiped_out(old(units)@, tolls@),
{
    let mut i: usize = 0;
    while i < units.len()
        invariant
            i <= units@.len(),
            units@.len() == old(units)@.len(),
            tolls@.len() == units@.len(),
            forall|j: int| 0 <= j < i ==> #[trigger] units@[j] == wiped_out(old(units)@, tolls@)[j],
            forall|j: int| i <= j < units@.len() ==> #[trigger] units@[j] == old(units)@[j],
        decreases units@.len() - i,
    {
        if tolls[i].hit && units[i].strength == 0 {
            let u = units[i].with_state(UnitState::Eliminated);
            units.set(i, u);
        }
        i += 1;
    }
}

fn settle_breaks(f: &mut Field, ans: &Answers, tolls: &Vec<Toll>)
    requires
        tolls@.len() == old(f).units@.len(),
    ensures
        final(f)@ == breaks_settled(old(f)@, ans@, tolls@, tolls@.len()),
        final(f).units@.len() == old(f).units@.len(),
{
    let mut i: usize = 0;
    while i < tolls.len()
        invariant
            i <= tolls@.len(),
            f.units@.len() == old(f).units@.len(),
            tolls@.len() == f.units@.len(),
            f@ == breaks_settled(old(f)@, ans@, tolls@, i as nat),
        decreases tolls@.len() - i,
    {
        if f.missing.is_none() && tolls[i].hit && f.units[i].org == 0 && f.units[i].state
            == UnitState::Active {
            break_unit(f, ans, i);
        }
        i += 1;
    }
}

fn shake_unit(
    f: &mut Field,
    losses: &mut Vec<(usize, u32)>,
    falling: &mut Vec<usize>,
    ans: &Answers,
    i: usize,
)
    requires
        i < old(f).units@.len(),
    ensures
        final(f).units@.len() == old(f).units@.len(),
        (CollapseView { field: final(f)@, losses: final(losses)@, falling: final(falling)@ }) == shaken(
            CollapseView { field: old(f)@, losses: old(losses)@, falling: old(falling)@ },
            ans@,
            i as int,
        ),
{
    if f.shakes_read < ans.shakes.len() {
        let s = ans.shakes[f.shakes_read];
        f.shakes_read = f.shakes_read + 1;
        if s.lost != 0 {
            losses.push((f.units[i].id, s.lost));
            let u = f.units[i].with_condition(s.condition);
            f.units.set(i, u);
            if s.condition.org == 0 {
                falling.push(i);
            }
        }
    } else {
        f.missing = Some(Missing::Shaken(i));
    }
}

/// The battalions that a collapse leaves without organisation are battalions
/// of the field, and it neither adds nor removes any.
proof fn lemma_falling(f: FieldView, ans: AnswerView, hq: int, n: nat)
    requires
        n <= f.units.len() <= usize::MAX,
    ensures
        division_shaken(f, ans, hq, n).field.units.len() == f.units.len(),
        forall|k: int|
            0 <= k < division_shaken(f, ans, hq, n).falling.len() ==> (#[trigger] division_shaken(
                f,
                ans,
                hq,
                n,
            ).falling[k]) < f.units.len(),
    decreases n,
{
    if n > 0 {
        lemma_falling(f, ans, hq, (n - 1) as nat);
        let rest = division_shaken(f, ans, hq, (n - 1) as nat);
        let all = division_shaken(f, ans, hq, n);
        assert forall|k: int| 0 <= k < all.falling.len() implies (#[trigger] all.falling[k])
            < f.units.len() by {
            if k < rest.falling.len() {
                assert(all.falling[k] == rest.falling[k]);
            }
        }
    }
}

fn settle_collapse(f: &mut Field, ans: &Answers, hq: usize) -> (event: HqLossEvent)
    requires
        hq < old(f).units@.len(),
        old(f).missing is None,
    ensures
        (final(f)@, event@) == collapse_settled(old(f)@, ans@, hq as int),
        final(f).units@.len() == old(f).units@.len(),
{
    let mut losses: Vec<(usize, u32)> = Vec::new();
    let mut falling: Vec<usize> = Vec::new();
    let hq_id = f.units[hq].id;
    let division = f.units[hq].division;
    let n: usize = f.units.len();
    let mut i: usize = 0;
    while i < n
        invariant
            i <= n,
            hq < n,
            n == f.units@.len(),
            n == old(f).units@.len(),
            (CollapseView { field: f@, losses: losses@, falling: falling@ }) == division_shaken(
                old(f)@,
                ans@,
                hq as int,
                i as nat,
            ),
        decreases n - i,
    {
        if f.missing.is_none() && i != hq && f.units[i].division == f.units[hq].division
            && f.units[i].state == UnitState::Active {
            shake_unit(f, &mut losses, &mut falling, ans, i);
        }
        i += 1;
    }
    proof {
        lemma_falling(old(f)@, ans@, hq as int, n as nat);
        let c = division_shaken(old(f)@, ans@, hq as int, n as nat);
        assert(c == (CollapseView { field: f@, losses: losses@, falling: falling@ }));
        assert forall|k: int| 0 <= k < falling@.len() implies (#[trigger] falling@[k]) < n by {
            assert(c.falling[k] < n);
        }
    }
    let ghost shaken_field = f@;
    if f.missing.is_none() {
        let mut k: usize = 0;
        assert(falling@.take(0) =~= Seq::<usize>::empty());
        while k < falling.len()
            invariant
                k <= falling@.len(),
                forall|k: int| 0 <= k < falling@.len() ==> (#[trigger] falling@[k]) < f.units@.len(),
                f.units@.len() == n,
                f@ == all_broken(shaken_field, ans@, falling@.take(k as int)),
            decreases falling@.len() - k,
        {
            assert(falling@.take(k + 1).drop_last() =~= falling@.take(k as int));
            if f.missing.is_none() {
                break_unit(f, ans, falling[k]);
            }
            k += 1;
        }
        assert(falling@.take(falling@.len() as int) =~= falling@);
    }
    let ghost after = f@;
    let ghost id_of = |i: usize| after.units[i as int].id;
    let mut broke: Vec<usize> = Vec::new();
    let mut k: usize = 0;
    assert(falling@.take(0).map_values(id_of) =~= Seq::<usize>::empty());
    while k < falling.len()
        invariant
            k <= falling@.len(),
            after == f@,
            id_of == (|i: usize| after.units[i as int].id),
            forall|k: int| 0 <= k < falling@.len() ==> (#[trigger] falling@[k]) < f.units@.len(),
            broke@ == falling@.take(k as int).map_values(id_of),
        decreases falling@.len() - k,
    {
        broke.push(f.units[falling[k]].id);
        assert(falling@.take(k + 1).map_values(id_of) =~= falling@.take(k as int).map_values(id_of).push(
            id_of(falling@[k as int]),
        ));
        k += 1;
    }
    assert(falling@.take(falling@.len() as int) =~= falling@);
    HqLossEvent { hq_id, division, losses, broke }
}

fn settle_collapses(before: &Vec<BattalionUnit>, f: &mut Field, ans: &Answers) -> (events: Vec<HqLossEvent>)
    requires
        before@.len() == old(f).units@.len(),
    ensures
        (final(f)@, event_views(events@)) == collapses_settled(before@, old(f)@, ans@, before@.len()),
        final(f).units@.len() == old(f).units@.len(),
{
    let mut events: Vec<HqLossEvent> = Vec::new();
    let mut i: usize = 0;
    assert(event_views(events@) =~= Seq::<HqLoss>::empty());
    while i < before.len()
        invariant
            i <= before@.len(),
            before@.len() == f.units@.len(),
            f.units@.len() == old(f).units@.len(),
            (f@, event_views(events@)) == collapses_settled(before@, old(f)@, ans@, i as nat),
        decreases before@.len() - i,
    {
        if f.missing.is_none() && before[i].kind.hq && before[i].state != UnitState::Eliminated
            && f.units[i].state == UnitState::Eliminated {
            let ghost so_far = events@;
            let event = settle_collapse(f, ans, i);
            events.push(event);
            assert(event_views(events@) =~= event_views(so_far).push(event@));
        }
        i += 1;
    }
    events
}

fn take_fire(units: &Vec<BattalionUnit>, tolls: &Vec<Toll>) -> (after: Vec<BattalionUnit>)
    requires
        tolls@.len() == units@.len(),
    ensures
        after@ == under_fire(units@, tolls@),
{
    let mut after: Vec<BattalionUnit> = Vec::new();
    let mut i: usize = 0;
    while i < units.len()
        invariant
            i <= units@.len(),
            tolls@.len() == units@.len(),
            after@.len() == i,
            forall|j: int| 0 <= j < i ==> #[trigger] after@[j] == under_fire(units@, tolls@)[j],
        decreases units@.len() - i,
    {
        let u = units[i].with_condition(tolls[i].condition);
        after.push(if tolls[i].stunned {
            shock(u)
        } else {
            u
        });
        i += 1;
    }
    after
}

fn shock(u: BattalionUnit) -> (s: BattalionUnit)
    ensures
        s == (BattalionUnit { shocked: true, ..u }),
{
    BattalionUnit { shocked: true, ..u }
}

/// Settles the damage of a fire phase.
pub fn settle(
    before: &Vec<BattalionUnit>,
    tolls: &Vec<Toll>,
    ans: &Answers,
    g: &HexGrid,
    rim: &Vec<HexCoord>,
    e: &Vec<Engagement>,
) -> (out: (Field, Vec<HqLossEvent>))
    requires
        tolls@.len() == before@.len(),
        forall|k: int|
            0 <= k < e@.len() ==> (#[trigger] e@[k]).attacker < before@.len() && e@[k].target
                < before@.len(),
    ensures
        (out.0@, event_views(out.1@)) == settled(before@, tolls@, ans@, g, rim@, e@),
        out.0.units@.len() == before@.len(),
{
    let mut f = Field {
        units: take_fire(before, tolls),
        rings_read: 0,
        shakes_read: 0,
        missing: None,
    };
    settle_assaults(&mut f, ans, g, rim, e);
    let no_events: Vec<HqLossEvent> = Vec::new();
    assert(event_views(no_events@) =~= Seq::<HqLoss>::empty());
    if f.missing.is_some() {
        return (f, no_events);
    }
    wipe_out(&mut f.units, tolls);
    settle_breaks(&mut f, ans, tolls);
    if f.missing.is_some() {
        return (f, no_events);
    }
    let events = settle_collapses(before, &mut f, ans);
    (f, events)
}

/// Spends the attacks of the battalions that attacked.
pub fn spend(units: &mut Vec<BattalionUnit>, lanes: &Vec<Lane>)
    requires
        forall|k: int| 0 <= k < lanes@.len() ==> (#[trigger] lanes@[k]).attacker < old(units)@.len(),
    ensures
        final(units)@ == spent(old(units)@, lanes@),
{
    let mut k: usize = 0;
    while k < lanes.len()
        invariant
            k <= lanes@.len(),
            units@.len() == old(units)@.len(),
            forall|k: int| 0 <= k < lanes@.len() ==> (#[trigger] lanes@[k]).attacker < units@.len(),
            forall|i: int|
                0 <= i < units@.len() ==> #[trigger] units@[i] == if attacked(lanes@.take(k as int), i) {
                    old(units)@[i].after_attack()
                } else {
                    old(units)@[i]
                },
        decreases lanes@.len() - k,
    {
        let a: usize = lanes[k].attacker;
        let ghost before = units@;
        let u = units[a].spent();
        units.set(a, u);
        proof {
            let t = lanes@.take(k as int);
            let t2 = lanes@.take(k + 1);
            assert forall|i: int| 0 <= i < units@.len() implies #[trigger] units@[i] == if attacked(t2, i) {
                old(units)@[i].after_attack()
            } else {
                old(units)@[i]
            } by {
                assert(before[i] == if attacked(t, i) {
                    old(units)@[i].after_attack()
                } else {
                    old(units)@[i]
                });
                if attacked(t, i) {
                    let j = choose|j: int| 0 <= j < t.len() && (#[trigger] t[j]).attacker == i;
                    assert(t2[j].attacker == i);
                }
                if attacked(t2, i) && i != a {
                    let j = choose|j: int| 0 <= j < t2.len() && (#[trigger] t2[j]).attacker == i;
                    assert(t[j].attacker == i);
                }
                assert(t2[k as int].attacker == a);
            }
        }
        k += 1;
    }
    assert(lanes@.take(lanes@.len() as int) =~= lanes@);
    assert(units@ =~= spent(old(units)@, lanes@));
}

fn has_assaulted(e: &Vec<Engagement>, a: usize, d: usize) -> (b: bool)
    ensures
        b == assaulted(e@, a as int, d as int),
{
    let mut k: usize = 0;
    while k < e.len()
        invariant
            k <= e@.len(),
            forall|j: int|
                0 <= j < k ==> !((#[trigger] e@[j]).assault && e@[j].attacker == a && e@[j].target == d),
        decreases e@.len() - k,
    {
        if e[k].assault && e[k].attacker == a && e[k].target == d {
            assert(e@[k as int].assault);
            return true;
        }
        k += 1;
    }
    false
}

/// The report on one attack.
pub fn report(
    units: &Vec<BattalionUnit>,
    tolls: &Vec<Toll>,
    e: &Vec<Engagement>,
    lane: Lane,
    dmg: LaneDamage,
) -> (r: CombatResult)
    requires
        lane.attacker < units@.len(),
        lane.defender < units@.len(),
        tolls@.len() == units@.len(),
    ensures
        r == reported(units@, tolls@, e@, lane, dmg),
{
    let a = units[lane.attacker];
    let d = units[lane.defender];
    CombatResult {
        attacker_id: a.id,
        defender_id: d.id,
        hex: lane.hex,
        org_damage_dealt: dmg.org_dealt,
        str_damage_dealt: dmg.str_dealt,
        org_damage_taken: dmg.org_taken,
        str_damage_taken: dmg.str_taken,
        defender_broken: d.state == UnitState::Retreating && dmg.org_dealt != 0 && d.org == 0,
        advanced: has_assaulted(e, lane.attacker, lane.defender) && a.position == lane.hex
            && a.is_combat_effective(),
        surrendered: d.state == UnitState::Surrendered,
        eliminated: d.state == UnitState::Eliminated,
        shocked_defender: tolls[lane.defender].stunned,
        shocked_attacker: tolls[lane.attacker].stunned,
        target_lost: false,
    }
}

/// No two battalions have one id.
pub open spec fn ids_differ(units: Seq<BattalionUnit>) -> bool {
    forall|i: int, j: int|
        0 <= i < units.len() && 0 <= j < units.len() && i != j ==> (#[trigger] units[i]).id != (
        #[trigger] units[j]).id
}

/// The battalions of one list have the ids of those of the other.
spec fn same_ids(a: Seq<BattalionUnit>, b: Seq<BattalionUnit>) -> bool {
    a.len() == b.len() && forall|i: int| 0 <= i < a.len() ==> (#[trigger] a[i]).id == b[i].id
}

/// Battalion `i` assaults or is assaulted.
pub open spec fn in_an_assault(e: Seq<Engagement>, i: int) -> bool {
    exists|k: int|
        0 <= k < e.len() && (#[trigger] e[k]).assault && (e[k].attacker == i || e[k].target == i)
}

proof fn lemma_broken_stays(f: FieldView, ans: AnswerView, i: int)
    requires
        0 <= i < f.units.len(),
    ensures
        same_ids(broken(f, ans, i).units, f.units),
        forall|j: int|
            0 <= j < f.units.len() ==> (#[trigger] broken(f, ans, i).units[j]).position
                == f.units[j].position,
{
}

proof fn lemma_assault_moves_two(
    f: FieldView,
    ans: AnswerView,
    g: &HexGrid,
    rim: Seq<HexCoord>,
    a: int,
    d: int,
    i: int,
)
    requires
        ids_differ(f.units),
        0 <= a < f.units.len(),
        0 <= d < f.units.len(),
        0 <= i < f.units.len(),
    ensures
        same_ids(assault_settled(f, ans, g, rim, a, d).units, f.units),
        i != a && i != d ==> assault_settled(f, ans, g, rim, a, d).units[i].position
            == f.units[i].position,
{
    let u = f.units[d];
    lemma_broken_stays(f, ans, d);
    let next = broken(f, ans, d);
    let ok = |x: BattalionUnit| x.id == u.id;
    crate::pick::law_first_where(next.units, ok);
    assert(next.units[d].id == u.id);
    if let Some(k) = unit_index(next.units, u.id) {
        assert(next.units[k].id == f.units[k].id);
        assert(k == d);
    }
}

proof fn lemma_assaults_move_their_own(
    f: FieldView,
    ans: AnswerView,
    g: &HexGrid,
    rim: Seq<HexCoord>,
    e: Seq<Engagement>,
    i: int,
)
    requires
        ids_differ(f.units),
        0 <= i < f.units.len(),
        forall|k: int|
            0 <= k < e.len() ==> (#[trigger] e[k]).attacker < f.units.len() && e[k].target < f.units.len(),
    ensures
        same_ids(assaults_settled(f, ans, g, rim, e).units, f.units),
        !in_an_assault(e, i) ==> assaults_settled(f, ans, g, rim, e).units[i].position
            == f.units[i].position,
    decreases e.len(),
{
    if e.len() > 0 {
        let t = e.drop_last();
        assert forall|k: int| 0 <= k < t.len() implies (#[trigger] t[k]).attacker < f.units.len()
            && t[k].target < f.units.len() by {
            assert(t[k] == e[k]);
        }
        lemma_assaults_move_their_own(f, ans, g, rim, t, i);
        let rest = assaults_settled(f, ans, g, rim, t);
        assert(ids_differ(rest.units)) by {
            assert forall|x: int, y: int|
                0 <= x < rest.units.len() && 0 <= y < rest.units.len() && x != y implies (
            #[trigger] rest.units[x]).id != (#[trigger] rest.units[y]).id by {
                assert(f.units[x].id != f.units[y].id);
            }
        }
        if in_an_assault(t, i) {
            let k = choose|k: int|
                0 <= k < t.len() && (#[trigger] t[k]).assault && (t[k].attacker == i || t[k].target
                    == i);
            assert(e[k].assault);
        }
        if e.last().assault {
            assert(e[e.len() - 1].assault);
            lemma_assault_moves_two(
                rest,
                ans,
                g,
                rim,
                e.last().attacker as int,
                e.last().target as int,
                i,
            );
        }
    }
}

proof fn lemma_breaks_stay(f: FieldView, ans: AnswerView, tolls: Seq<Toll>, n: nat)
    requires
        n <= f.units.len(),
    ensures
        breaks_settled(f, ans, tolls, n).units.len() == f.units.len(),
        forall|j: int|
            0 <= j < f.units.len() ==> (#[trigger] breaks_settled(f, ans, tolls, n).units[j]).position
                == f.units[j].position,
    decreases n,
{
    if n > 0 {
        lemma_breaks_stay(f, ans, tolls, (n - 1) as nat);
        let rest = breaks_settled(f, ans, tolls, (n - 1) as nat);
        lemma_broken_stays(rest, ans, n - 1);
    }
}

proof fn lemma_shaking_stays(f: FieldView, ans: AnswerView, hq: int, n: nat)
    requires
        n <= f.units.len() <= usize::MAX,
    ensures
        forall|j: int|
            0 <= j < f.units.len() ==> (#[trigger] division_shaken(f, ans, hq, n).field.units[j]).position
                == f.units[j].position,
    decreases n,
{
    if n > 0 {
        lemma_shaking_stays(f, ans, hq, (n - 1) as nat);
        lemma_falling(f, ans, hq, (n - 1) as nat);
    }
}

proof fn lemma_all_broken_stay(f: FieldView, ans: AnswerView, falling: Seq<usize>)
    requires
        forall|k: int| 0 <= k < falling.len() ==> (#[trigger] falling[k]) < f.units.len(),
    ensures
        all_broken(f, ans, falling).units.len() == f.units.len(),
        forall|j: int|
            0 <= j < f.units.len() ==> (#[trigger] all_broken(f, ans, falling).units[j]).position
                == f.units[j].position,
    decreases falling.len(),
{
    if falling.len() > 0 {
        let t = falling.drop_last();
        assert forall|k: int| 0 <= k < t.len() implies (#[trigger] t[k]) < f.units.len() by {
            assert(t[k] == falling[k]);
        }
        lemma_all_broken_stay(f, ans, t);
        assert(falling[falling.len() - 1] < f.units.len());
        lemma_broken_stays(all_broken(f, ans, t), ans, falling.last() as int);
    }
}

proof fn lemma_collapses_stay(before: Seq<BattalionUnit>, f: FieldView, ans: AnswerView, n: nat)
    requires
        n <= f.units.len() <= usize::MAX,
    ensures
        collapses_settled(before, f, ans, n).0.units.len() == f.units.len(),
        forall|j: int|
            0 <= j < f.units.len() ==> (#[trigger] collapses_settled(before, f, ans, n).0.units[j]).position
                == f.units[j].position,
    decreases n,
{
    if n > 0 {
        lemma_collapses_stay(before, f, ans, (n - 1) as nat);
        let rest = collapses_settled(before, f, ans, (n - 1) as nat).0;
        let len = rest.units.len();
        lemma_falling(rest, ans, n - 1, len);
        lemma_shaking_stays(rest, ans, n - 1, len);
        let c = division_shaken(rest, ans, n - 1, len);
        assert forall|k: int| 0 <= k < c.falling.len() implies (#[trigger] c.falling[k])
            < c.field.units.len() by {}
        lemma_all_broken_stay(c.field, ans, c.falling);
    }
}

/// Fire never moves anyone: in a fire phase only battalions that assault or
/// are assaulted change their hex.
pub proof fn law_only_assaults_move(
    before: Seq<BattalionUnit>,
    tolls: Seq<Toll>,
    ans: AnswerView,
    g: &HexGrid,
    rim: Seq<HexCoord>,
    e: Seq<Engagement>,
    i: int,
)
    requires
        before.len() <= usize::MAX,
        ids_differ(before),
        0 <= i < before.len(),
        forall|k: int|
            0 <= k < e.len() ==> (#[trigger] e[k]).attacker < before.len() && e[k].target < before.len(),
        !in_an_assault(e, i),
    ensures
        settled(before, tolls, ans, g, rim, e).0.units[i].position == before[i].position,
{
    let start = FieldView {
        units: under_fire(before, tolls),
        rings_read: 0,
        shakes_read: 0,
        missing: None,
    };
    assert(ids_differ(start.units)) by {
        assert forall|x: int, y: int|
            0 <= x < start.units.len() && 0 <= y < start.units.len() && x != y implies (
        #[trigger] start.units[x]).id != (#[trigger] start.units[y]).id by {
            assert(before[x].id != before[y].id);
        }
    }
    lemma_assaults_move_their_own(start, ans, g, rim, e, i);
    let f1 = assaults_settled(start, ans, g, rim, e);
    let f2 = FieldView { units: wiped_out(f1.units, tolls), ..f1 };
    assert(f2.units[i].position == f1.units[i].position);
    lemma_breaks_stay(f2, ans, tolls, before.len());
    let f3 = breaks_settled(f2, ans, tolls, before.len());
    lemma_collapses_stay(before, f3, ans, before.len());
}

/// No two battalions hold one hex.
pub open spec fn spread(units: Seq<BattalionUnit>) -> bool {
    forall|i: int, j: int|
        0 <= i < units.len() && 0 <= j < units.len() && i != j && (#[trigger] units[i]).targetable() && (
        #[trigger] units[j]).targetable() ==> units[i].position != units[j].position
}

/// The settlement of an assault respects stacking: where no two battalions held
/// one hex before it, none do after it, unless the defender broke on a way off
/// the battle, where a rout holds its hex.
pub proof fn law_assaults_respect_stacking(
    f: FieldView,
    ans: AnswerView,
    g: &HexGrid,
    rim: Seq<HexCoord>,
    a: int,
    d: int,
)
    requires
        0 <= a < f.units.len(),
        0 <= d < f.units.len(),
        a != d,
        full_compass(g.order()),
        ids_differ(f.units),
        spread(f.units),
        !exit_hexes(g, f.units[d].side, rim, WayOff::OutOfBounds)(f.units[d].position),
        !exit_hexes(g, f.units[d].side, rim, WayOff::OwnEdge)(f.units[d].position),
    ensures
        spread(assault_settled(f, ans, g, rim, a, d).units),
{
    let u = f.units[d];
    if u.org == 0 && (u.state == UnitState::Active || u.state == UnitState::Withdrawn) {
        let next = broken(f, ans, d);
        assert forall|i: int, j: int|
            0 <= i < next.units.len() && 0 <= j < next.units.len() && i != j && (#[trigger] next.units[i]).targetable()
                && (#[trigger] next.units[j]).targetable() implies next.units[i].position
            != next.units[j].position by {
            assert(f.units[i].targetable() && f.units[j].targetable());
        }
        assert(spread(next.units));
        if next.missing is None && next.units[d].state != UnitState::Surrendered {
            let same_id = |v: BattalionUnit| v.id == u.id;
            crate::pick::law_first_where(next.units, same_id);
            assert(next.units[d].id == u.id);
            assert(unit_index(next.units, u.id) == Some(d)) by {
                let k = unit_index(next.units, u.id);
                if let Some(x) = k {
                    if x != d {
                        assert(f.units[x].id != f.units[d].id);
                    }
                }
            }
            law_retreat_respects_stacking(g, next.units, d, true, rim);
            let (units, away) = retreat_result(g, next.units, u.id, true, rim);
            if away {
                let v = units[d];
                assert(retreated(g, next.units, d, true, rim) == Some(v));
                assert(v.position != u.position);
                assert forall|i: int, j: int|
                    0 <= i < units.len() && 0 <= j < units.len() && i != j && (#[trigger] units[i]).targetable()
                        && (#[trigger] units[j]).targetable() implies units[i].position != units[j].position by {
                    if i != d {
                        assert(next.units[i].id != u.id) by {
                            assert(f.units[i].id != f.units[d].id);
                        }
                    }
                    if j != d {
                        assert(next.units[j].id != u.id) by {
                            assert(f.units[j].id != f.units[d].id);
                        }
                    }
                    assert(next.units[i].targetable() || i == d);
                    assert(next.units[j].targetable() || j == d);
                }
                assert(spread(units));
                if units[a].effective() {
                    let last = units.update(a, units[a].at_hex(u.position));
                    assert forall|i: int, j: int|
                        0 <= i < last.len() && 0 <= j < last.len() && i != j && (#[trigger] last[i]).targetable() && (
                        #[trigger] last[j]).targetable() implies last[i].position != last[j].position by {
                        assert(units[i].targetable() == last[i].targetable());
                        assert(units[j].targetable() == last[j].targetable());
                        assert(next.units[d].targetable());
                        if i == a && j != d {
                            assert(next.units[j].targetable());
                        }
                        if j == a && i != d {
                            assert(next.units[i].targetable());
                        }
                    }
                    assert(spread(last));
                }
            }
        }
    }
}

/// A headquarters that survives, routs or surrenders costs its division
/// nothing: without the annihilation of one there is no collapse.
pub proof fn law_no_collapse_without_annihilation(
    before: Seq<BattalionUnit>,
    f: FieldView,
    ans: AnswerView,
    n: nat,
)
    requires
        forall|i: int| 0 <= i < n ==> !hq_lost(before, f.units, i),
    ensures
        collapses_settled(before, f, ans, n) == (f, Seq::<HqLoss>::empty()),
    decreases n,
{
    if n > 0 {
        law_no_collapse_without_annihilation(before, f, ans, (n - 1) as nat);
    }
}

// ---- what the settlement does to the battalions ----

/// The battalions are the same, in the same order, and have lost or gained
/// neither organisation nor strength; those that are gone stay gone.
spec fn unworn(a: Seq<BattalionUnit>, b: Seq<BattalionUnit>) -> bool {
    &&& a.len() == b.len()
    &&& forall|i: int|
        #![trigger a[i]]
        #![trigger b[i]]
        0 <= i < a.len() ==> b[i].id == a[i].id && b[i].org == a[i].org && b[i].strength == a[i].strength && (
        a[i].state == UnitState::Eliminated ==> b[i].state == UnitState::Eliminated)
}

/// The battalions are the same, in the same order; those that are gone stay gone.
spec fn same_force(a: Seq<BattalionUnit>, b: Seq<BattalionUnit>) -> bool {
    &&& a.len() == b.len()
    &&& forall|i: int|
        #![trigger a[i]]
        #![trigger b[i]]
        0 <= i < a.len() ==> b[i].id == a[i].id && (a[i].state == UnitState::Eliminated ==> b[i].state
            == UnitState::Eliminated)
}

/// No battalion has more organisation or another strength than before.
spec fn organised_no_better(a: Seq<BattalionUnit>, b: Seq<BattalionUnit>) -> bool {
    forall|i: int|
        #![trigger a[i]]
        #![trigger b[i]]
        0 <= i < a.len() ==> b[i].org <= a[i].org && b[i].strength == a[i].strength
}

/// A toll leaves a battalion with no more than it had.
pub open spec fn tolls_lower(units: Seq<BattalionUnit>, tolls: Seq<Toll>) -> bool {
    forall|i: int|
        #![trigger units[i]]
        #![trigger tolls[i]]
        0 <= i < units.len() ==> tolls[i].condition.org <= units[i].org && tolls[i].condition.strength
            <= units[i].strength
}

/// Whoever of the first `n` battalions the loss of headquarters `hq` shakes is
/// left with no more organisation than it had, and with its strength.
pub open spec fn division_lowered(f: FieldView, ans: AnswerView, hq: int, n: nat) -> bool
    decreases n,
{
    if n == 0 {
        true
    } else {
        let rest = division_shaken(f, ans, hq, (n - 1) as nat).field;
        let c = ans.shakes[rest.shakes_read as int].condition;
        &&& division_lowered(f, ans, hq, (n - 1) as nat)
        &&& rest.missing is None && shaken_by(rest.units, hq, n - 1) && rest.shakes_read < ans.shakes.len()
            ==> c.org <= rest.units[n - 1].org && c.strength == rest.units[n - 1].strength
    }
}

/// The loss of none of the first `n` headquarters leaves a battalion with more
/// organisation than it had, or with another strength.
pub open spec fn shakes_lower(before: Seq<BattalionUnit>, f: FieldView, ans: AnswerView, n: nat) -> bool
    decreases n,
{
    if n == 0 {
        true
    } else {
        let rest = collapses_settled(before, f, ans, (n - 1) as nat).0;
        &&& shakes_lower(before, f, ans, (n - 1) as nat)
        &&& rest.missing is None && hq_lost(before, rest.units, n - 1) ==> division_lowered(
            rest,
            ans,
            n - 1,
            rest.units.len(),
        )
    }
}

/// The field once the assaults are settled and the wiped-out are gone, and the
/// other broken battalions have broken.
pub open spec fn fought_out(
    before: Seq<BattalionUnit>,
    tolls: Seq<Toll>,
    ans: AnswerView,
    g: &HexGrid,
    rim: Seq<HexCoord>,
    e: Seq<Engagement>,
) -> FieldView {
    let start = FieldView {
        units: under_fire(before, tolls),
        rings_read: 0,
        shakes_read: 0,
        missing: None,
    };
    let f1 = assaults_settled(start, ans, g, rim, e);
    breaks_settled(FieldView { units: wiped_out(f1.units, tolls), ..f1 }, ans, tolls, before.len())
}

proof fn lemma_assaults_wear_nobody(
    f: FieldView,
    ans: AnswerView,
    g: &HexGrid,
    rim: Seq<HexCoord>,
    e: Seq<Engagement>,
)
    requires
        forall|k: int|
            0 <= k < e.len() ==> (#[trigger] e[k]).attacker < f.units.len() && e[k].target < f.units.len(),
    ensures
        unworn(f.units, assaults_settled(f, ans, g, rim, e).units),
    decreases e.len(),
{
    if e.len() > 0 {
        let t = e.drop_last();
        assert forall|k: int| 0 <= k < t.len() implies (#[trigger] t[k]).attacker < f.units.len() && t[k].target
            < f.units.len() by {
            assert(t[k] == e[k]);
        }
        lemma_assaults_wear_nobody(f, ans, g, rim, t);
        let rest = assaults_settled(f, ans, g, rim, t);
        assert(e[e.len() - 1] == e.last());
        if rest.missing is None && e.last().assault {
            let d = e.last().target as int;
            let u = rest.units[d];
            if u.org == 0 && (u.state == UnitState::Active || u.state == UnitState::Withdrawn) {
                let next = broken(rest, ans, d);
                assert(unworn(rest.units, next.units));
                let same_id = |v: BattalionUnit| v.id == u.id;
                crate::pick::law_first_where(next.units, same_id);
                let (units, away) = retreat_result(g, next.units, u.id, true, rim);
                if next.missing is None && next.units[d].state != UnitState::Surrendered {
                    lemma_retreat_wears_nobody(g, next.units, u.id, rim);
                    assert(unworn(next.units, units));
                }
            }
        }
    }
}

proof fn lemma_retreat_wears_nobody(g: &HexGrid, units: Seq<BattalionUnit>, id: usize, rim: Seq<HexCoord>)
    ensures
        unworn(units, retreat_result(g, units, id, true, rim).0),
{
    crate::pick::law_first_where(units, |u: BattalionUnit| u.id == id);
    let after = retreat_result(g, units, id, true, rim).0;
    if let Some(i) = unit_index(units, id) {
        if let Some(v) = retreated(g, units, i, true, rim) {
            assert(units[i].targetable());
            assert(v.id == units[i].id && v.org == units[i].org && v.strength == units[i].strength);
        }
    }
}

proof fn lemma_breaks_wear_nobody(f: FieldView, ans: AnswerView, tolls: Seq<Toll>, n: nat)
    requires
        n <= f.units.len(),
    ensures
        unworn(f.units, breaks_settled(f, ans, tolls, n).units),
    decreases n,
{
    if n > 0 {
        lemma_breaks_wear_nobody(f, ans, tolls, (n - 1) as nat);
    }
}

proof fn lemma_shaking_wears(f: FieldView, ans: AnswerView, hq: int, n: nat)
    requires
        n <= f.units.len() <= usize::MAX,
    ensures
        same_force(f.units, division_shaken(f, ans, hq, n).field.units),
        division_lowered(f, ans, hq, n) ==> organised_no_better(
            f.units,
            division_shaken(f, ans, hq, n).field.units,
        ),
        forall|k: int|
            0 <= k < division_shaken(f, ans, hq, n).falling.len() ==> {
                let x = #[trigger] division_shaken(f, ans, hq, n).falling[k];
                x < f.units.len() && division_shaken(f, ans, hq, n).field.units[x as int].state
                    == UnitState::Active
            },
    decreases n,
{
    if n > 0 {
        lemma_shaking_wears(f, ans, hq, (n - 1) as nat);
        let rest = division_shaken(f, ans, hq, (n - 1) as nat);
        let all = division_shaken(f, ans, hq, n);
        assert forall|k: int| 0 <= k < all.falling.len() implies {
            let x = #[trigger] all.falling[k];
            x < f.units.len() && all.field.units[x as int].state == UnitState::Active
        } by {
            if k < rest.falling.len() {
                assert(all.falling[k] == rest.falling[k]);
            }
        }
    }
}

proof fn lemma_all_broken_wear_nobody(f: FieldView, ans: AnswerView, falling: Seq<usize>)
    requires
        forall|k: int|
            0 <= k < falling.len() ==> (#[trigger] falling[k]) < f.units.len() && f.units[falling[k] as int].state
                != UnitState::Eliminated,
    ensures
        unworn(f.units, all_broken(f, ans, falling).units),
    decreases falling.len(),
{
    if falling.len() > 0 {
        let t = falling.drop_last();
        assert forall|k: int| 0 <= k < t.len() implies (#[trigger] t[k]) < f.units.len() && f.units[t[k] as int].state
            != UnitState::Eliminated by {
            assert(t[k] == falling[k]);
        }
        lemma_all_broken_wear_nobody(f, ans, t);
        assert(falling[falling.len() - 1] == falling.last());
    }
}

proof fn lemma_collapses_wear(before: Seq<BattalionUnit>, f: FieldView, ans: AnswerView, n: nat)
    requires
        n <= f.units.len() <= usize::MAX,
    ensures
        same_force(f.units, collapses_settled(before, f, ans, n).0.units),
        shakes_lower(before, f, ans, n) ==> organised_no_better(
            f.units,
            collapses_settled(before, f, ans, n).0.units,
        ),
    decreases n,
{
    if n > 0 {
        lemma_collapses_wear(before, f, ans, (n - 1) as nat);
        let rest = collapses_settled(before, f, ans, (n - 1) as nat).0;
        lemma_shaking_wears(rest, ans, n - 1, rest.units.len());
        let c = division_shaken(rest, ans, n - 1, rest.units.len());
        assert forall|k: int| 0 <= k < c.falling.len() implies (#[trigger] c.falling[k]) < c.field.units.len()
            && c.field.units[c.falling[k] as int].state != UnitState::Eliminated by {}
        lemma_all_broken_wear_nobody(c.field, ans, c.falling);
    }
}

/// The settlement wears the battalions down and does nothing else to their
/// numbers: they stay the same, in the same order; where no toll and no shake
/// raises anything, none has more organisation or strength than before; and
/// whoever was struck and has no strength left is eliminated.
pub proof fn law_settlement_wears_down(
    before: Seq<BattalionUnit>,
    tolls: Seq<Toll>,
    ans: AnswerView,
    g: &HexGrid,
    rim: Seq<HexCoord>,
    e: Seq<Engagement>,
    i: int,
)
    requires
        before.len() <= usize::MAX,
        tolls.len() == before.len(),
        0 <= i < before.len(),
        forall|k: int|
            0 <= k < e.len() ==> (#[trigger] e[k]).attacker < before.len() && e[k].target < before.len(),
        settled(before, tolls, ans, g, rim, e).0.missing is None,
    ensures
        ({
            let after = settled(before, tolls, ans, g, rim, e).0.units;
            let lowered = tolls_lower(before, tolls) && shakes_lower(
                before,
                fought_out(before, tolls, ans, g, rim, e),
                ans,
                before.len(),
            );
            &&& after.len() == before.len()
            &&& after[i].id == before[i].id
            &&& lowered ==> after[i].org <= before[i].org && after[i].strength <= before[i].strength
            &&& tolls[i].hit && tolls[i].condition.strength == 0 ==> after[i].state == UnitState::Eliminated
            &&& lowered && tolls[i].hit && after[i].strength == 0 ==> after[i].state == UnitState::Eliminated
        }),
{
    let start = FieldView {
        units: under_fire(before, tolls),
        rings_read: 0,
        shakes_read: 0,
        missing: None,
    };
    lemma_assaults_wear_nobody(start, ans, g, rim, e);
    let f1 = assaults_settled(start, ans, g, rim, e);
    let f2 = FieldView { units: wiped_out(f1.units, tolls), ..f1 };
    lemma_breaks_wear_nobody(f2, ans, tolls, before.len());
    let f3 = breaks_settled(f2, ans, tolls, before.len());
    lemma_collapses_wear(before, f3, ans, before.len());
    assert(start.units[i] == under_fire(before, tolls)[i]);
    assert(f1.units[i].strength == start.units[i].strength);
    assert(f2.units[i].strength == f1.units[i].strength);
    assert(f3.units[i].id == f2.units[i].id);
    let after = collapses_settled(before, f3, ans, before.len()).0.units;
    assert(after[i].id == f3.units[i].id);
    if tolls_lower(before, tolls) {
        assert(tolls[i].condition.org <= before[i].org);
    }
}

// ---- what the settlement asks ----

/// No more answers have been read than there are, and one is missing only
/// where all of its kind have been read.
pub open spec fn read_in_turn(f: FieldView, ans: AnswerView) -> bool {
    &&& f.rings_read <= ans.rings.len()
    &&& f.shakes_read <= ans.shakes.len()
    &&& f.missing matches Some(Missing::Encircled(_)) ==> f.rings_read == ans.rings.len()
    &&& f.missing matches Some(Missing::Shaken(_)) ==> f.shakes_read == ans.shakes.len()
}

proof fn lemma_assaults_read_in_turn(
    f: FieldView,
    ans: AnswerView,
    g: &HexGrid,
    rim: Seq<HexCoord>,
    e: Seq<Engagement>,
)
    requires
        read_in_turn(f, ans),
    ensures
        read_in_turn(assaults_settled(f, ans, g, rim, e), ans),
    decreases e.len(),
{
    if e.len() > 0 {
        lemma_assaults_read_in_turn(f, ans, g, rim, e.drop_last());
    }
}

proof fn lemma_breaks_read_in_turn(f: FieldView, ans: AnswerView, tolls: Seq<Toll>, n: nat)
    requires
        read_in_turn(f, ans),
    ensures
        read_in_turn(breaks_settled(f, ans, tolls, n), ans),
    decreases n,
{
    if n > 0 {
        lemma_breaks_read_in_turn(f, ans, tolls, (n - 1) as nat);
    }
}

proof fn lemma_shaking_reads_in_turn(f: FieldView, ans: AnswerView, hq: int, n: nat)
    requires
        read_in_turn(f, ans),
    ensures
        read_in_turn(division_shaken(f, ans, hq, n).field, ans),
    decreases n,
{
    if n > 0 {
        lemma_shaking_reads_in_turn(f, ans, hq, (n - 1) as nat);
    }
}

proof fn lemma_all_broken_read_in_turn(f: FieldView, ans: AnswerView, falling: Seq<usize>)
    requires
        read_in_turn(f, ans),
    ensures
        read_in_turn(all_broken(f, ans, falling), ans),
    decreases falling.len(),
{
    if falling.len() > 0 {
        lemma_all_broken_read_in_turn(f, ans, falling.drop_last());
    }
}

proof fn lemma_collapses_read_in_turn(before: Seq<BattalionUnit>, f: FieldView, ans: AnswerView, n: nat)
    requires
        read_in_turn(f, ans),
    ensures
        read_in_turn(collapses_settled(before, f, ans, n).0, ans),
    decreases n,
{
    if n > 0 {
        lemma_collapses_read_in_turn(before, f, ans, (n - 1) as nat);
        let rest = collapses_settled(before, f, ans, (n - 1) as nat).0;
        lemma_shaking_reads_in_turn(rest, ans, n - 1, rest.units.len());
        let c = division_shaken(rest, ans, n - 1, rest.units.len());
        lemma_all_broken_read_in_turn(c.field, ans, c.falling);
    }
}

/// The settlement asks only for what it has not been told: an answer is missing
/// only where all that were given of its kind have been read.
pub proof fn law_only_missing_answers_are_asked_for(
    before: Seq<BattalionUnit>,
    tolls: Seq<Toll>,
    ans: AnswerView,
    g: &HexGrid,
    rim: Seq<HexCoord>,
    e: Seq<Engagement>,
)
    ensures
        read_in_turn(settled(before, tolls, ans, g, rim, e).0, ans),
{
    let start = FieldView {
        units: under_fire(before, tolls),
        rings_read: 0,
        shakes_read: 0,
        missing: None,
    };
    lemma_assaults_read_in_turn(start, ans, g, rim, e);
    let f1 = assaults_settled(start, ans, g, rim, e);
    let f2 = FieldView { units: wiped_out(f1.units, tolls), ..f1 };
    lemma_breaks_read_in_turn(f2, ans, tolls, before.len());
    let f3 = breaks_settled(f2, ans, tolls, before.len());
    lemma_collapses_read_in_turn(before, f3, ans, before.len());
}

} // verus!
