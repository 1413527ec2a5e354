//! What holds of every settlement of a fire phase and of every turn end.
use vstd::prelude::*;
use crate::combat::{
    departure, fire_phase, ground_down, in_contact, leaves, regrouped, stunned_ids, turn_ended,
    AttritionRates, EncirclementLevel, FireOutcome, FireReports, Rest,
};
use crate::fire::{planned, AttackOrder, CombatParams, Engagement, Lane};
use crate::grid::HexGrid;
use crate::hex::{hex_distance, HexCoord};
use crate::pick::{indices, law_those_where, those_where};
use crate::retreat::{retreat_result, retreated, unit_index};
use crate::settle::{
    all_broken, assault_settled, assaults_settled, breaks_settled, broken, collapse_settled,
    collapses_settled, division_shaken, hq_lost, ids_differ, in_an_assault, reported, settled,
    shaken_by, spent, under_fire, wiped_out, AnswerView, FieldView, HqLoss, LaneDamage, Missing,
    Toll,
};
use crate::unit::{BattalionUnit, Condition, UnitState};

verus! {

/// The fire leaves each battalion in the condition of its toll and shocks exactly
/// those that it stuns; a shock that it had stays. Nothing else changes.
pub proof fn law_fire_leaves_its_toll(units: Seq<BattalionUnit>, tolls: Seq<Toll>, i: int)
    requires
        0 <= i < units.len(),
    ensures
        ({
            let now = under_fire(units, tolls);
            let c = tolls[i].condition;
            &&& now.len() == units.len()
            &&& now[i].org == c.org && now[i].strength == c.strength && now[i].fit == c.fit && now[i].present == c.present
            &&& now[i].org_ratio == c.org_ratio && now[i].org_cents == c.org_cents && now[i].strength_cents
                == c.strength_cents
            &&& now[i].shocked <==> units[i].shocked || tolls[i].stunned
            &&& now[i].state == units[i].state && now[i].position == units[i].position && now[i].id == units[i].id
            &&& now[i].side == units[i].side && now[i].division == units[i].division && now[i].kind == units[i].kind
        }),
{
}

/// A battalion that breaks surrenders if it is told to be fully encircled and routs if
/// not; nobody else changes. Without an answer it is asked, and nobody changes.
pub proof fn law_a_broken_battalion_surrenders_or_routs(f: FieldView, ans: AnswerView, i: int, j: int)
    requires
        0 <= i < f.units.len(),
        0 <= j < f.units.len(),
    ensures
        ({
            let next = broken(f, ans, i);
            &&& f.rings_read < ans.rings.len() ==> {
                &&& ans.rings[f.rings_read as int] ==> next.units[i].state == UnitState::Surrendered
                &&& !ans.rings[f.rings_read as int] ==> next.units[i].state == UnitState::Retreating
                &&& next.units[i].position == f.units[i].position && next.units[i].org == f.units[i].org
                &&& next.rings_read == f.rings_read + 1 && next.shakes_read == f.shakes_read && next.missing == f.missing
            }
            &&& j != i ==> next.units[j] == f.units[j]
            &&& f.rings_read >= ans.rings.len() ==> next.units == f.units && next.missing == Some(
                Missing::Encircled(i as usize),
            )
        }),
{
}

/// The struck defender of an assault is out of organisation while it stands, or is
/// parked at its edge.
pub open spec fn gives_way(u: BattalionUnit) -> bool {
    u.org == 0 && (u.state == UnitState::Active || u.state == UnitState::Withdrawn)
}

/// The defender of an assault that gives way breaks. If it surrenders it stays; if it
/// routs it takes its retreat step, and if it has one the attacker, if it still fights,
/// takes its hex. A defender that does not give way, and an attacker whose defender does
/// not get away, stay where they are. Nobody else is touched.
#[verifier::rlimit(40)]
#[verifier::spinoff_prover]
pub proof fn law_attackers_take_the_hex_of_a_rout(
    f: FieldView,
    ans: AnswerView,
    g: &HexGrid,
    rim: Seq<HexCoord>,
    a: int,
    d: int,
    j: int,
)
    requires
        0 <= a < f.units.len(),
        0 <= d < f.units.len(),
        0 <= j < f.units.len(),
        a != d,
        ids_differ(f.units),
        f.missing is None,
    ensures
        ({
            let u = f.units[d];
            let next = assault_settled(f, ans, g, rim, a, d);
            let told = f.rings_read < ans.rings.len();
            let routed = f.units.update(d, u.in_state(UnitState::Retreating));
            let step = retreated(g, routed, d, true, rim);
            &&& !gives_way(u) ==> next == f
            &&& gives_way(u) && !told ==> next.missing == Some(Missing::Encircled(d as usize)) && next.units == f.units
            &&& gives_way(u) && told && ans.rings[f.rings_read as int] ==> {
                &&& next.units[d].state == UnitState::Surrendered && next.units[d].position == u.position
                &&& next.units[a] == f.units[a]
            }
            &&& gives_way(u) && told && !ans.rings[f.rings_read as int] ==> match step {
                Some(v) => {
                    &&& next.units[d] == v
                    &&& f.units[a].effective() ==> next.units[a] == f.units[a].at_hex(u.position)
                    &&& !f.units[a].effective() ==> next.units[a] == f.units[a]
                },
                None => next.units[d].state == UnitState::Retreating && next.units[d].position == u.position && next.units[a]
                    == f.units[a],
            }
            &&& j != a && j != d ==> next.units[j] == f.units[j]
            &&& next.units.len() == f.units.len()
        }),
{
    let u = f.units[d];
    let next = broken(f, ans, d);
    lemma_one_bearer(f.units, next.units, d);
    let now = assault_settled(f, ans, g, rim, a, d);
    if gives_way(u) && f.rings_read < ans.rings.len() {
        if ans.rings[f.rings_read as int] {
            assert(now == next);
        } else {
            let routed = f.units.update(d, u.in_state(UnitState::Retreating));
            assert(next.units == routed);
            lemma_rout_step(g, routed, d, rim);
            let (units, away) = retreat_result(g, routed, u.id, true, rim);
            assert(units[a] == f.units[a]);
            assert(units.len() == f.units.len());
            if away && units[a].effective() {
                assert(now.units == units.update(a, units[a].at_hex(u.position)));
            } else {
                assert(now.units == units);
            }
        }
    }
}

proof fn lemma_one_bearer(units: Seq<BattalionUnit>, now: Seq<BattalionUnit>, d: int)
    requires
        ids_differ(units),
        0 <= d < units.len(),
        now.len() == units.len(),
        forall|k: int| 0 <= k < units.len() ==> (#[trigger] now[k]).id == units[k].id,
    ensures
        unit_index(now, units[d].id) == Some(d),
{
    let id = units[d].id;
    let named = |x: BattalionUnit| x.id == id;
    crate::pick::law_first_where(now, named);
    assert(named(now[d]));
    if let Some(k) = unit_index(now, id) {
        assert(units[k].id == units[d].id);
        assert(k == d);
    }
}

proof fn lemma_rout_step(g: &HexGrid, units: Seq<BattalionUnit>, d: int, rim: Seq<HexCoord>)
    requires
        0 <= d < units.len(),
        unit_index(units, units[d].id) == Some(d),
    ensures
        match retreated(g, units, d, true, rim) {
            Some(v) => retreat_result(g, units, units[d].id, true, rim) == (units.update(d, v), true),
            None => retreat_result(g, units, units[d].id, true, rim) == (units, false),
        },
{
}

/// The assaults are settled one after the other, each on the field that those before it
/// leave; fire from afar settles nothing, and nothing is settled after a missing answer.
pub proof fn law_assaults_are_settled_in_turn(f: FieldView, ans: AnswerView, g: &HexGrid, rim: Seq<HexCoord>, e: Seq<Engagement>, x: Engagement)
    ensures
        assaults_settled(f, ans, g, rim, Seq::empty()) == f,
        ({
            let was = assaults_settled(f, ans, g, rim, e);
            let now = assaults_settled(f, ans, g, rim, e.push(x));
            &&& was.missing is None && x.assault ==> now == assault_settled(
                was,
                ans,
                g,
                rim,
                x.attacker as int,
                x.target as int,
            )
            &&& was.missing is Some || !x.assault ==> now == was
        }),
{
    assert(e.push(x).drop_last() =~= e);
}

/// Exactly the struck battalions without strength are gone.
pub proof fn law_the_wiped_out_are_gone(units: Seq<BattalionUnit>, tolls: Seq<Toll>, i: int)
    requires
        0 <= i < units.len(),
    ensures
        wiped_out(units, tolls).len() == units.len(),
        tolls[i].hit && units[i].strength == 0 ==> wiped_out(units, tolls)[i] == units[i].in_state(UnitState::Eliminated),
        !(tolls[i].hit && units[i].strength == 0) ==> wiped_out(units, tolls)[i] == units[i],
{
}

/// Battalion `i` breaks under fire: it was struck, stands and has no organisation left.
pub open spec fn breaks(f: FieldView, tolls: Seq<Toll>, i: int) -> bool {
    tolls[i].hit && f.units[i].org == 0 && f.units[i].state == UnitState::Active
}

/// How many of the first `n` battalions break under fire.
pub open spec fn breaking(f: FieldView, tolls: Seq<Toll>, n: int) -> nat {
    Seq::new(n as nat, |i: int| i).filter(|i: int| breaks(f, tolls, i)).len()
}

proof fn lemma_one_more_counts(ok: spec_fn(int) -> bool, n: nat)
    requires
        n > 0,
    ensures
        Seq::new(n, |i: int| i).filter(ok).len() == Seq::new((n - 1) as nat, |i: int| i).filter(ok).len() + if ok(n - 1) {
            1nat
        } else {
            0nat
        },
{
    reveal(Seq::filter);
    let s = Seq::new(n, |i: int| i);
    assert(s.drop_last() =~= Seq::new((n - 1) as nat, |i: int| i));
    assert(s.last() == n - 1);
}

/// Exactly the battalions that break under fire change: in their order each surrenders
/// or routs as it is told, and nobody else does either.
#[verifier::rlimit(40)]
#[verifier::spinoff_prover]
pub proof fn law_whoever_has_no_organisation_left_breaks(f: FieldView, ans: AnswerView, tolls: Seq<Toll>, n: nat)
    requires
        n <= f.units.len(),
        f.missing is None,
    ensures
        ({
            let now = breaks_settled(f, ans, tolls, n);
            &&& now.units.len() == f.units.len() && now.shakes_read == f.shakes_read
            &&& now.missing is None ==> {
                &&& now.rings_read == f.rings_read + breaking(f, tolls, n as int)
                &&& forall|i: int|
                    0 <= i < n && breaks(f, tolls, i) ==> {
                        let k = f.rings_read + breaking(f, tolls, i);
                        &&& k < ans.rings.len()
                        &&& (#[trigger] now.units[i]) == f.units[i].in_state(
                            if ans.rings[k as int] {
                                UnitState::Surrendered
                            } else {
                                UnitState::Retreating
                            },
                        )
                    }
                &&& forall|i: int|
                    0 <= i < f.units.len() && !(i < n && breaks(f, tolls, i)) ==> (#[trigger] now.units[i]) == f.units[i]
            }
        }),
    decreases n,
{
    let ok = |i: int| breaks(f, tolls, i);
    if n > 0 {
        let m = (n - 1) as nat;
        law_whoever_has_no_organisation_left_breaks(f, ans, tolls, m);
        lemma_one_more_counts(ok, n);
        let was = breaks_settled(f, ans, tolls, m);
        let now = breaks_settled(f, ans, tolls, n);
        let i = m as int;
        if now.missing is None {
            assert(was.missing is None);
            assert(was.units[i] == f.units[i]);
            if breaks(f, tolls, i) {
                assert(now == broken(was, ans, i));
                let state = if ans.rings[was.rings_read as int] {
                    UnitState::Surrendered
                } else {
                    UnitState::Retreating
                };
                assert(now.units == was.units.update(i, was.units[i].in_state(state)));
            } else {
                assert(now == was);
            }
            assert forall|k: int| 0 <= k < f.units.len() && k != i implies (#[trigger] now.units[k]) == was.units[k] by {}
        }
    } else {
        lemma_none_counts(ok);
    }
}

proof fn lemma_none_counts(ok: spec_fn(int) -> bool)
    ensures
        Seq::new(0nat, |i: int| i).filter(ok).len() == 0,
{
    reveal(Seq::filter);
}

/// Battalion `i` is shaken by the loss of headquarters `hq`: another one of its division
/// that stands.
pub open spec fn loses_its_head(f: FieldView, hq: int, i: int) -> bool {
    i != hq && f.units[i].division == f.units[hq].division && f.units[i].state == UnitState::Active
}

/// How many of the first `n` battalions are shaken by the loss of headquarters `hq`.
pub open spec fn headless(f: FieldView, hq: int, n: int) -> nat {
    Seq::new(n as nat, |i: int| i).filter(|i: int| loses_its_head(f, hq, i)).len()
}

/// The loss of a headquarters shakes exactly the battalions of its division that stand,
/// in their order, each by what it is told: one that loses nothing stays as it is, any
/// other is left in the condition it is told, is listed with its loss, and falls exactly
/// if that leaves it without organisation; nothing else is listed.
#[verifier::rlimit(40)]
#[verifier::spinoff_prover]
pub proof fn law_a_lost_headquarters_shakes_its_division(f: FieldView, ans: AnswerView, hq: int, n: nat)
    requires
        n <= f.units.len() <= usize::MAX,
        0 <= hq < f.units.len(),
        f.missing is None,
    ensures
        ({
            let c = division_shaken(f, ans, hq, n);
            let told = |i: int| ans.shakes[(f.shakes_read + headless(f, hq, i)) as int];
            &&& c.field.units.len() == f.units.len() && c.field.rings_read == f.rings_read
            &&& c.field.missing is None ==> {
                &&& c.field.shakes_read == f.shakes_read + headless(f, hq, n as int)
                &&& forall|i: int|
                    0 <= i < n && loses_its_head(f, hq, i) ==> {
                        &&& f.shakes_read + headless(f, hq, i) < ans.shakes.len()
                        &&& (#[trigger] c.field.units[i]) == if told(i).lost == 0 {
                            f.units[i]
                        } else {
                            f.units[i].in_condition(told(i).condition)
                        }
                        &&& told(i).lost != 0 ==> c.losses.contains((f.units[i].id, told(i).lost))
                        &&& c.falling.contains(i as usize) <==> told(i).lost != 0 && told(i).condition.org == 0
                    }
                &&& forall|i: int|
                    0 <= i < f.units.len() && !(i < n && loses_its_head(f, hq, i)) ==> (#[trigger] c.field.units[i])
                        == f.units[i] && !c.falling.contains(i as usize)
                &&& forall|k: int, l: int| 0 <= k < l < c.falling.len() ==> (#[trigger] c.falling[k]) < (
                #[trigger] c.falling[l])
                &&& forall|k: int| 0 <= k < c.falling.len() ==> (#[trigger] c.falling[k]) < n
                &&& c.losses.len() == Seq::new(n, |i: int| i).filter(
                    |i: int| loses_its_head(f, hq, i) && ans.shakes[(f.shakes_read + headless(f, hq, i)) as int].lost != 0,
                ).len()
            }
        }),
    decreases n,
{
    let ok = |i: int| loses_its_head(f, hq, i);
    if n > 0 {
        let m = (n - 1) as nat;
        law_a_lost_headquarters_shakes_its_division(f, ans, hq, m);
        lemma_one_more_counts(ok, n);
        lemma_one_more_counts(
            |i: int| loses_its_head(f, hq, i) && ans.shakes[(f.shakes_read + headless(f, hq, i)) as int].lost != 0,
            n,
        );
        let was = division_shaken(f, ans, hq, m);
        let c = division_shaken(f, ans, hq, n);
        let told = |i: int| ans.shakes[(f.shakes_read + headless(f, hq, i)) as int];
        if c.field.missing is None {
            assert(was.field.missing is None);
            assert(was.field.units[m as int] == f.units[m as int]);
            assert(was.field.units[hq].division == f.units[hq].division) by {
                assert(was.field.units[hq] == f.units[hq]);
            }
            assert(shaken_by(was.field.units, hq, m as int) == loses_its_head(f, hq, m as int));
            let grows = c.falling.len() > was.falling.len();
            assert(forall|k: int| 0 <= k < was.falling.len() ==> c.falling[k] == was.falling[k]);
            assert(forall|k: int| 0 <= k < was.losses.len() ==> c.losses[k] == was.losses[k]);
            assert forall|x: usize| x < m implies #[trigger] c.falling.contains(x) == was.falling.contains(x) by {
                let i = x as int;
                if was.falling.contains(i as usize) {
                    let k = choose|k: int| 0 <= k < was.falling.len() && was.falling[k] == i as usize;
                    assert(c.falling[k] == i as usize);
                }
                if c.falling.contains(i as usize) {
                    let k = choose|k: int| 0 <= k < c.falling.len() && c.falling[k] == i as usize;
                    if k < was.falling.len() {
                        assert(was.falling[k] == i as usize);
                    }
                }
            }
            assert forall|i: int| 0 <= i < n && loses_its_head(f, hq, i) implies {
                &&& f.shakes_read + headless(f, hq, i) < ans.shakes.len()
                &&& (#[trigger] c.field.units[i]) == if told(i).lost == 0 {
                    f.units[i]
                } else {
                    f.units[i].in_condition(told(i).condition)
                }
                &&& told(i).lost != 0 ==> c.losses.contains((f.units[i].id, told(i).lost))
                &&& c.falling.contains(i as usize) <==> told(i).lost != 0 && told(i).condition.org == 0
            } by {
                if i < m {
                    assert(c.field.units[i] == was.field.units[i]);
                    if told(i).lost != 0 {
                        let k = choose|k: int|
                            0 <= k < was.losses.len() && was.losses[k] == (f.units[i].id, told(i).lost);
                        assert(c.losses[k] == was.losses[k]);
                    }
                } else {
                    if told(i).lost != 0 {
                        assert(c.losses[was.losses.len() as int] == (f.units[i].id, told(i).lost));
                        if told(i).condition.org == 0 {
                            assert(c.falling[was.falling.len() as int] == i as usize);
                        }
                    }
                    if c.falling.contains(i as usize) {
                        let k = choose|k: int| 0 <= k < c.falling.len() && c.falling[k] == i as usize;
                        if k < was.falling.len() {
                            assert(was.falling[k] < m);
                        }
                    }
                }
            }
            assert forall|i: int| 0 <= i < f.units.len() && !(i < n && loses_its_head(f, hq, i)) implies (
            #[trigger] c.field.units[i]) == f.units[i] && !c.falling.contains(i as usize) by {
                assert(c.field.units[i] == was.field.units[i]);
                if c.falling.contains(i as usize) {
                    let k = choose|k: int| 0 <= k < c.falling.len() && c.falling[k] == i as usize;
                    if k < was.falling.len() {
                        assert(was.falling[k] == i as usize);
                        assert(was.falling.contains(i as usize));
                    }
                }
            }
            assert forall|k: int, l: int| 0 <= k < l < c.falling.len() implies (#[trigger] c.falling[k]) < (
            #[trigger] c.falling[l]) by {
                if l < was.falling.len() {
                    assert(was.falling[k] < was.falling[l]);
                } else {
                    assert(was.falling[k] < m);
                }
            }
        }
    } else {
        lemma_none_counts(ok);
        lemma_none_counts(
            |i: int| loses_its_head(f, hq, i) && ans.shakes[(f.shakes_read + headless(f, hq, i)) as int].lost != 0,
        );
        let c = division_shaken(f, ans, hq, n);
        assert(c.falling =~= Seq::<usize>::empty());
    }
}

#[verifier::rlimit(40)]
#[verifier::spinoff_prover]
proof fn lemma_all_broken(f: FieldView, ans: AnswerView, falling: Seq<usize>)
    requires
        f.missing is None,
        forall|k: int| 0 <= k < falling.len() ==> (#[trigger] falling[k]) < f.units.len(),
        forall|k: int, l: int| 0 <= k < l < falling.len() ==> (#[trigger] falling[k]) < (#[trigger] falling[l]),
    ensures
        ({
            let now = all_broken(f, ans, falling);
            &&& now.units.len() == f.units.len() && now.shakes_read == f.shakes_read
            &&& now.missing is None ==> {
                &&& now.rings_read == f.rings_read + falling.len()
                &&& f.rings_read + falling.len() <= ans.rings.len() || falling.len() == 0
                &&& forall|k: int|
                    0 <= k < falling.len() ==> now.units[(#[trigger] falling[k]) as int] == f.units[falling[k] as int].in_state(
                        if ans.rings[f.rings_read + k] {
                            UnitState::Surrendered
                        } else {
                            UnitState::Retreating
                        },
                    )
                &&& forall|i: int| 0 <= i < f.units.len() && !falling.contains(i as usize) ==> (#[trigger] now.units[i])
                    == f.units[i]
            }
        }),
    decreases falling.len(),
{
    if falling.len() > 0 {
        let t = falling.drop_last();
        assert forall|k: int| 0 <= k < t.len() implies (#[trigger] t[k]) < f.units.len() by {
            assert(t[k] == falling[k]);
        }
        assert forall|k: int, l: int| 0 <= k < l < t.len() implies (#[trigger] t[k]) < (#[trigger] t[l]) by {
            assert(t[k] == falling[k] && t[l] == falling[l]);
        }
        lemma_all_broken(f, ans, t);
        let was = all_broken(f, ans, t);
        let now = all_broken(f, ans, falling);
        let x = falling[falling.len() - 1];
        assert(falling.last() == x);
        if now.missing is None {
            assert(was.missing is None);
            assert(!t.contains(x)) by {
                if t.contains(x) {
                    let k = choose|k: int| 0 <= k < t.len() && t[k] == x;
                    assert(falling[k] < falling[falling.len() - 1]);
                }
            }
            assert(was.units[x as int] == f.units[x as int]);
            assert forall|k: int| 0 <= k < falling.len() implies now.units[(#[trigger] falling[k]) as int]
                == f.units[falling[k] as int].in_state(
                if ans.rings[f.rings_read + k] {
                    UnitState::Surrendered
                } else {
                    UnitState::Retreating
                },
            ) by {
                if k < t.len() {
                    assert(t[k] == falling[k]);
                    assert(falling[k] < x);
                    assert(now.units[falling[k] as int] == was.units[t[k] as int]);
                }
            }
            assert forall|i: int| 0 <= i < f.units.len() && !falling.contains(i as usize) implies (
            #[trigger] now.units[i]) == f.units[i] by {
                if t.contains(i as usize) {
                    let k = choose|k: int| 0 <= k < t.len() && t[k] == i as usize;
                    assert(falling[k] == i as usize);
                }
                assert(i != x as int) by {
                    if i == x as int {
                        assert(falling[falling.len() - 1] == i as usize);
                    }
                }
                assert(now.units[i] == was.units[i]);
            }
        }
    }
}

/// What the loss of a headquarters comes to: whoever it leaves without organisation
/// surrenders or routs; of the others of its division that stand each keeps its state;
/// and nobody outside of it is touched. The event names the headquarters and its
/// division, and whoever fell.
#[verifier::rlimit(40)]
#[verifier::spinoff_prover]
pub proof fn law_a_collapse_stays_in_its_division(f: FieldView, ans: AnswerView, hq: int, i: int)
    requires
        f.units.len() <= usize::MAX,
        0 <= hq < f.units.len(),
        0 <= i < f.units.len(),
        f.missing is None,
    ensures
        ({
            let (now, event) = collapse_settled(f, ans, hq);
            let told = ans.shakes[(f.shakes_read + headless(f, hq, i)) as int];
            &&& event.hq_id == f.units[hq].id && event.division == f.units[hq].division
            &&& event.losses == division_shaken(f, ans, hq, f.units.len()).losses
            &&& event.broke.len() == division_shaken(f, ans, hq, f.units.len()).falling.len()
            &&& now.missing is None ==> {
                &&& now.units.len() == f.units.len()
                &&& now.shakes_read == f.shakes_read + headless(f, hq, f.units.len() as int)
                &&& !loses_its_head(f, hq, i) ==> now.units[i] == f.units[i]
                &&& loses_its_head(f, hq, i) && told.lost == 0 ==> now.units[i] == f.units[i]
                &&& loses_its_head(f, hq, i) && told.lost != 0 ==> {
                    &&& event.losses.contains((f.units[i].id, told.lost))
                    &&& now.units[i].org == told.condition.org && now.units[i].fit == told.condition.fit
                    &&& told.condition.org != 0 ==> now.units[i].state == UnitState::Active
                    &&& told.condition.org == 0 ==> {
                        &&& now.units[i].state == UnitState::Surrendered || now.units[i].state == UnitState::Retreating
                        &&& event.broke.contains(f.units[i].id)
                    }
                }
            }
        }),
{
    let n = f.units.len();
    law_a_lost_headquarters_shakes_its_division(f, ans, hq, n);
    let c = division_shaken(f, ans, hq, n);
    let (now, event) = collapse_settled(f, ans, hq);
    if c.field.missing is None {
        lemma_all_broken(c.field, ans, c.falling);
        if now.missing is None {
            let told = ans.shakes[(f.shakes_read + headless(f, hq, i)) as int];
            assert(!c.falling.contains(i as usize) ==> now.units[i] == c.field.units[i]);
            assert(!loses_its_head(f, hq, i) ==> c.field.units[i] == f.units[i]);
            if loses_its_head(f, hq, i) {
                assert(c.field.units[i] == if told.lost == 0 {
                    f.units[i]
                } else {
                    f.units[i].in_condition(told.condition)
                });
                if c.falling.contains(i as usize) {
                    let k = choose|k: int| 0 <= k < c.falling.len() && c.falling[k] == i as usize;
                    assert(now.units[c.falling[k] as int].id == f.units[i].id);
                    assert(event.broke[k] == f.units[i].id);
                }
            }
        }
    }
}

/// Each headquarters that stood before the phase and is eliminated collapses its
/// division, in their order, and nothing else does.
pub proof fn law_only_annihilated_headquarters_collapse(before: Seq<BattalionUnit>, f: FieldView, ans: AnswerView, n: nat)
    ensures
        ({
            let (was, events) = collapses_settled(before, f, ans, n);
            let (now, more) = collapses_settled(before, f, ans, n + 1);
            let lost = before[n as int].kind.hq && before[n as int].state != UnitState::Eliminated && was.units[n as int].state
                == UnitState::Eliminated;
            &&& collapses_settled(before, f, ans, 0) == (f, Seq::<HqLoss>::empty())
            &&& was.missing is None && lost ==> now == collapse_settled(was, ans, n as int).0 && more == events.push(
                collapse_settled(was, ans, n as int).1,
            )
            &&& was.missing is Some || !lost ==> now == was && more == events
        }),
{
}

/// The battalions that made an attack have acted, their march has ended and their cover
/// is gone; nobody else changes.
pub proof fn law_attackers_have_acted(units: Seq<BattalionUnit>, lanes: Seq<Lane>, i: int)
    requires
        0 <= i < units.len(),
    ensures
        ({
            let now = spent(units, lanes);
            let attacker = exists|k: int| 0 <= k < lanes.len() && (#[trigger] lanes[k]).attacker == i;
            &&& now.len() == units.len()
            &&& attacker ==> now[i].acted && now[i].move_to is None && !now[i].is_holding
            &&& !attacker ==> now[i] == units[i]
            &&& now[i].position == units[i].position && now[i].state == units[i].state && now[i].org == units[i].org
        }),
{
}

/// What is reported of an attack: who struck whom and where, the damage as it was told,
/// and of the defender whether it was broken, surrendered or was eliminated; that the
/// attacker advanced exactly if it assaulted this defender, fights and stands on the
/// hex; and exactly the shocks of this phase.
pub proof fn law_reports_tell_what_happened(
    units: Seq<BattalionUnit>,
    tolls: Seq<Toll>,
    e: Seq<Engagement>,
    lane: Lane,
    dmg: LaneDamage,
)
    ensures
        ({
            let r = reported(units, tolls, e, lane, dmg);
            let a = units[lane.attacker as int];
            let d = units[lane.defender as int];
            let stormed = exists|k: int|
                0 <= k < e.len() && (#[trigger] e[k]).assault && e[k].attacker == lane.attacker && e[k].target
                    == lane.defender;
            &&& r.attacker_id == a.id && r.defender_id == d.id && r.hex == lane.hex && !r.target_lost
            &&& r.org_damage_dealt == dmg.org_dealt && r.str_damage_dealt == dmg.str_dealt
            &&& r.org_damage_taken == dmg.org_taken && r.str_damage_taken == dmg.str_taken
            &&& r.defender_broken <==> d.state == UnitState::Retreating && d.org == 0 && dmg.org_dealt != 0
            &&& r.surrendered <==> d.state == UnitState::Surrendered
            &&& r.eliminated <==> d.state == UnitState::Eliminated
            &&& r.advanced <==> stormed && a.state == UnitState::Active && a.fit && a.position == lane.hex
            &&& r.shocked_defender == tolls[lane.defender as int].stunned
            &&& r.shocked_attacker == tolls[lane.attacker as int].stunned
        }),
{
    if crate::settle::assaulted(e, lane.attacker as int, lane.defender as int) {
        let k = choose|k: int|
            0 <= k < e.len() && (#[trigger] e[k]).assault && e[k].attacker == lane.attacker && e[k].target == lane.defender;
        assert(e[k].attacker == lane.attacker);
    }
}

#[verifier::rlimit(40)]
proof fn lemma_assaults_leave_others(
    f: FieldView,
    ans: AnswerView,
    g: &HexGrid,
    rim: Seq<HexCoord>,
    e: Seq<Engagement>,
    i: int,
)
    requires
        ids_differ(f.units),
        0 <= i < f.units.len(),
        !in_an_assault(e, i),
        forall|k: int| 0 <= k < e.len() ==> (#[trigger] e[k]).attacker < f.units.len() && e[k].target < f.units.len(),
    ensures
        ({
            let now = assaults_settled(f, ans, g, rim, e);
            &&& now.units.len() == f.units.len()
            &&& now.units[i] == f.units[i]
            &&& ids_differ(now.units)
            &&& forall|j: int| 0 <= j < f.units.len() ==> (#[trigger] now.units[j]).id == f.units[j].id
        }),
    decreases e.len(),
{
    if e.len() > 0 {
        let t = e.drop_last();
        assert forall|k: int| 0 <= k < t.len() implies (#[trigger] t[k]).attacker < f.units.len() && t[k].target
            < f.units.len() by {
            assert(t[k] == e[k]);
        }
        if in_an_assault(t, i) {
            let k = choose|k: int|
                0 <= k < t.len() && (#[trigger] t[k]).assault && (t[k].attacker == i || t[k].target == i);
            assert(e[k].assault);
        }
        lemma_assaults_leave_others(f, ans, g, rim, t, i);
        let was = assaults_settled(f, ans, g, rim, t);
        let x = e[e.len() - 1];
        assert(e.last() == x);
        if was.missing is None && x.assault {
            lemma_assault_leaves_others(was, ans, g, rim, x.attacker as int, x.target as int, i);
        }
    }
}

proof fn lemma_assault_leaves_others(f: FieldView, ans: AnswerView, g: &HexGrid, rim: Seq<HexCoord>, a: int, d: int, i: int)
    requires
        ids_differ(f.units),
        0 <= a < f.units.len(),
        0 <= d < f.units.len(),
        0 <= i < f.units.len(),
        i != a && i != d,
    ensures
        ({
            let now = assault_settled(f, ans, g, rim, a, d);
            &&& now.units.len() == f.units.len()
            &&& now.units[i] == f.units[i]
            &&& ids_differ(now.units)
            &&& forall|j: int| 0 <= j < f.units.len() ==> (#[trigger] now.units[j]).id == f.units[j].id
        }),
{
    let u = f.units[d];
    let next = broken(f, ans, d);
    let named = |x: BattalionUnit| x.id == u.id;
    crate::pick::law_first_where(next.units, named);
    assert(next.units[d].id == u.id);
    if let Some(k) = unit_index(next.units, u.id) {
        assert(next.units[k].id == f.units[k].id);
        assert(k == d);
    }
    let now = assault_settled(f, ans, g, rim, a, d);
    assert forall|j: int| 0 <= j < f.units.len() implies (#[trigger] now.units[j]).id == f.units[j].id by {}
    assert forall|x: int, y: int| 0 <= x < now.units.len() && 0 <= y < now.units.len() && x != y implies (
    #[trigger] now.units[x]).id != (#[trigger] now.units[y]).id by {
        assert(f.units[x].id != f.units[y].id);
    }
}

proof fn lemma_collapses_leave_the_broken(before: Seq<BattalionUnit>, f: FieldView, ans: AnswerView, n: nat, i: int)
    requires
        n <= f.units.len() <= usize::MAX,
        0 <= i < f.units.len(),
        f.missing is None,
        f.units[i].state != UnitState::Active,
    ensures
        ({
            let now = collapses_settled(before, f, ans, n).0;
            &&& now.units.len() == f.units.len() || now.missing is Some
            &&& now.missing is None ==> now.units[i] == f.units[i]
        }),
    decreases n,
{
    if n > 0 {
        lemma_collapses_leave_the_broken(before, f, ans, (n - 1) as nat, i);
        let was = collapses_settled(before, f, ans, (n - 1) as nat).0;
        if was.missing is None && hq_lost(before, was.units, n - 1) {
            law_a_collapse_stays_in_its_division(was, ans, n - 1, i);
        }
    }
}

/// A battalion that stands in no assault and that fire leaves without organisation but
/// not without strength ends the phase in rout or captured; one that fire leaves without
/// strength ends it eliminated, whether it is in an assault or not.
#[verifier::rlimit(40)]
pub proof fn law_fire_breaks_whom_it_leaves_without_organisation(
    before: Seq<BattalionUnit>,
    tolls: Seq<Toll>,
    ans: AnswerView,
    g: &HexGrid,
    rim: Seq<HexCoord>,
    e: Seq<Engagement>,
    i: int,
)
    requires
        before.len() <= usize::MAX,
        tolls.len() == before.len(),
        ids_differ(before),
        0 <= i < before.len(),
        forall|k: int| 0 <= k < e.len() ==> (#[trigger] e[k]).attacker < before.len() && e[k].target < before.len(),
        settled(before, tolls, ans, g, rim, e).0.missing is None,
        tolls[i].hit,
        before[i].state == UnitState::Active,
        tolls[i].condition.org == 0,
        !in_an_assault(e, i),
    ensures
        ({
            let after = settled(before, tolls, ans, g, rim, e).0.units[i];
            &&& tolls[i].condition.strength == 0 ==> after.state == UnitState::Eliminated
            &&& tolls[i].condition.strength != 0 ==> after.state == UnitState::Retreating || after.state
                == UnitState::Surrendered
            &&& after.position == before[i].position
        }),
{
    let start = FieldView { units: under_fire(before, tolls), rings_read: 0, shakes_read: 0, missing: None };
    assert(ids_differ(start.units)) by {
        assert forall|x: int, y: int| 0 <= x < start.units.len() && 0 <= y < start.units.len() && x != y implies (
        #[trigger] start.units[x]).id != (#[trigger] start.units[y]).id by {
            assert(before[x].id != before[y].id);
        }
    }
    lemma_assaults_leave_others(start, ans, g, rim, e, i);
    let f1 = assaults_settled(start, ans, g, rim, e);
    let f2 = FieldView { units: wiped_out(f1.units, tolls), ..f1 };
    law_whoever_has_no_organisation_left_breaks(f2, ans, tolls, before.len());
    let f3 = breaks_settled(f2, ans, tolls, before.len());
    assert(f3.units[i].state != UnitState::Active);
    lemma_collapses_leave_the_broken(before, f3, ans, before.len(), i);
}

/// The settlement takes the field under fire, settles the assaults, then counts out the
/// wiped-out, then breaks whoever has no organisation left, and last collapses the
/// divisions of annihilated headquarters; it stops at the first missing answer.
pub proof fn law_a_phase_is_settled_in_order(
    before: Seq<BattalionUnit>,
    tolls: Seq<Toll>,
    ans: AnswerView,
    g: &HexGrid,
    rim: Seq<HexCoord>,
    e: Seq<Engagement>,
)
    ensures
        ({
            let start = FieldView { units: under_fire(before, tolls), rings_read: 0, shakes_read: 0, missing: None };
            let f1 = assaults_settled(start, ans, g, rim, e);
            let f3 = breaks_settled(FieldView { units: wiped_out(f1.units, tolls), ..f1 }, ans, tolls, before.len());
            let r = settled(before, tolls, ans, g, rim, e);
            &&& f1.missing is Some ==> r.0 == f1
            &&& f1.missing is None && f3.missing is Some ==> r.0 == f3
            &&& f1.missing is None && f3.missing is None ==> r == collapses_settled(before, f3, ans, before.len())
        }),
{
}

/// A fire phase that is not told the damage asks for it with the plan of the orders; one
/// that lacks an answer asks for it; and one that is told all reports the lost orders
/// and then each attack, on the field as the attacks leave it, with the damage of its
/// own lane.
#[verifier::rlimit(40)]
pub proof fn law_a_phase_asks_and_then_reports(
    g: &HexGrid,
    rim: Seq<HexCoord>,
    p: CombatParams,
    units: Seq<BattalionUnit>,
    orders: Seq<AttackOrder>,
    reports: &FireReports,
    k: int,
)
    ensures
        ({
            let pl = planned(units, p, orders, reports.sight@);
            match reports.damage {
                None => fire_phase(g, rim, p, units, orders, reports) == FireOutcome::Strikes(pl),
                Some(damage) => {
                    let (f, events) = settled(pl.units, damage.tolls@, reports.answers@, g, rim, pl.engagements);
                    match fire_phase(g, rim, p, units, orders, reports) {
                        FireOutcome::Strikes(_) => false,
                        FireOutcome::Asks { missing, units: field } => f.missing == Some(missing) && field == f.units,
                        FireOutcome::Resolved { units: after, results, shocked, events: told } => {
                            &&& f.missing is None && after == spent(f.units, pl.lanes) && told == events
                            &&& shocked == stunned_ids(units, damage.tolls@)
                            &&& results.len() == pl.lost.len() + pl.lanes.len()
                            &&& 0 <= k < pl.lost.len() ==> results[k] == pl.lost[k]
                            &&& pl.lost.len() <= k < results.len() ==> results[k] == reported(
                                after,
                                damage.tolls@,
                                pl.engagements,
                                pl.lanes[k - pl.lost.len()],
                                damage.lanes@[k - pl.lost.len()],
                            )
                        },
                    }
                },
            }
        }),
{
}

/// The ids of those that a phase shocks are exactly the ids of those that its fire
/// stuns.
pub proof fn law_the_stunned_are_remembered(units: Seq<BattalionUnit>, tolls: Seq<Toll>, i: int)
    requires
        0 <= i < units.len() <= usize::MAX,
    ensures
        tolls[i].stunned ==> stunned_ids(units, tolls).contains(units[i].id),
        0 <= i < stunned_ids(units, tolls).len() ==> exists|j: int|
            0 <= j < units.len() && (#[trigger] tolls[j]).stunned && stunned_ids(units, tolls)[i] == units[j].id,
{
    let all = indices(units.len());
    let ok = |j: usize| tolls[j as int].stunned;
    law_those_where(all, ok);
    let s = those_where(all, ok);
    assert(all[i] == i as usize);
    if tolls[i].stunned {
        assert(all.contains(i as usize));
        assert(s.contains(i as usize));
        let k = choose|k: int| 0 <= k < s.len() && s[k] == i as usize;
        assert(stunned_ids(units, tolls)[k] == units[i].id);
    }
    if 0 <= i < s.len() {
        assert(s.contains(s[i]));
        let j = choose|j: int| 0 <= j < all.len() && all[j] == s[i];
        assert(tolls[j].stunned);
    }
}

/// A turn of encirclement wears exactly the battalions that fight and whose level costs
/// something, and free ones that do not fight where freedom does; whoever it leaves
/// without organisation surrenders in full encirclement and routs otherwise; all others
/// keep their state.
pub proof fn law_encirclement_grinds_down(u: BattalionUnit, rates: AttritionRates, level: EncirclementLevel, worn: Condition)
    ensures
        ({
            let v = ground_down(u, rates, level, worn);
            let fights = u.state == UnitState::Active && u.fit;
            let costs = if fights && level == EncirclementLevel::Full {
                rates.full
            } else if fights && level == EncirclementLevel::Partial {
                rates.partial
            } else {
                rates.free
            };
            &&& !costs ==> v == u
            &&& costs ==> {
                &&& v.org == worn.org && v.strength == worn.strength && v.fit == worn.fit && v.present == worn.present
                &&& v.position == u.position && v.id == u.id
                &&& worn.org != 0 ==> v.state == u.state
                &&& worn.org == 0 && fights && level == EncirclementLevel::Full ==> v.state == UnitState::Surrendered
                &&& worn.org == 0 && !(fights && level == EncirclementLevel::Full) ==> v.state == UnitState::Retreating
            }
        }),
{
}

/// Every battalion that fights, is in command and has no fighting enemy next to it takes
/// its rest.
pub proof fn law_whoever_is_out_of_contact_rests(units: Seq<BattalionUnit>, in_command: Seq<bool>, rests: Seq<Rest>, i: int)
    requires
        0 <= i < units.len(),
        units[i].state == UnitState::Active && units[i].fit && in_command[i],
        forall|j: int|
            0 <= j < units.len() && (#[trigger] units[j]).side != units[i].side && units[j].state == UnitState::Active
                && units[j].fit ==> hex_distance(units[j].position, units[i].position) != 1,
    ensures
        ({
            let v = regrouped(units, in_command, rests)[i];
            v.org == rests[i].org && v.org_ratio == rests[i].org_ratio && v.org_cents == rests[i].org_cents
        }),
{
    if in_contact(units, units[i]) {
        let j = choose|j: int|
            0 <= j < units.len() && (#[trigger] units[j]).side != units[i].side && units[j].effective() && hex_distance(
                units[j].position,
                units[i].position,
            ) == 1;
        assert(units[j].fit);
    }
}

/// A battalion in contact does not rest.
pub proof fn law_contact_allows_no_rest(units: Seq<BattalionUnit>, in_command: Seq<bool>, rests: Seq<Rest>, i: int, j: int)
    requires
        0 <= i < units.len(),
        0 <= j < units.len(),
        units[j].side != units[i].side && units[j].state == UnitState::Active && units[j].fit,
        hex_distance(units[j].position, units[i].position) == 1,
    ensures
        regrouped(units, in_command, rests)[i] == units[i],
{
    assert(units[j].effective());
    assert(in_contact(units, units[i]));
}

/// A battalion leaves the battle exactly if it is on the board, out of bounds, and this
/// turn end is the one that fills the number of consecutive turns.
pub proof fn law_who_leaves_the_battle(g: &HexGrid, limit: u32, u: BattalionUnit)
    requires
        limit > 0,
    ensures
        leaves(g, limit, u) <==> (u.state == UnitState::Active || u.state == UnitState::Retreating || u.state
            == UnitState::Withdrawn) && g.on_map(u.position) && g.content(u.position).out_of_bounds && u.oob_turns + 1
            >= limit,
        departure(u).unit_id == u.id && departure(u).side == u.side && departure(u).org_frac == u.org_ratio,
        leaves(g, limit, u) ==> {
            let v = turn_ended(g, limit, u);
            &&& v.state == UnitState::LeftBattle && v.org == 0 && v.strength == u.strength && v.move_to is None
            &&& v.position.q == i32::MIN && v.position.r == i32::MIN && v.oob_turns == 0 && !v.is_holding
        },
        !leaves(g, limit, u) ==> turn_ended(g, limit, u).state == u.state && turn_ended(g, limit, u).position == u.position,
{
}

} // verus!
