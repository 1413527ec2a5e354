//! What holds of every garrison, line and post of a deployment.
use vstd::prelude::*;
use crate::deploy::{
    accepted_upto, all_in_city, city_hexes, garrison_candidate, garrison_cap, garrison_of, garrison_quota, in_same_division,
    urban_in, weakest_first, weakness_ranks, Deployment,
};
use crate::firing::lemma_filter_of_indices;
use crate::geometry::law_matches_keep_their_order;
use crate::hex::HexCoord;
use crate::pick::{count_where, indices, law_ranking, law_those_where, ranked, those_where};
use crate::relief::lemma_ranked_holds;
use crate::tactic::CombatTactic;
use crate::unit::{BattalionUnit, Side, UnitState};

verus! {

/// Battalion `i` may be placed at all: it is of the side, of the division that is
/// placed if one is named, waits to be deployed if only such are placed, and fights.
pub open spec fn to_be_placed(d: &Deployment, units: Seq<BattalionUnit>, i: int) -> bool {
    let u = units[i];
    &&& u.side == d.side
    &&& d.only_undeployed ==> u.undeployed
    &&& d.only_division matches Some(n) ==> u.division == n
    &&& u.state == UnitState::Active && u.fit
}

/// Battalion `i` may garrison the city: it may be placed, reaches no farther than
/// the next hex and is no headquarters.
pub open spec fn may_garrison(d: &Deployment, units: Seq<BattalionUnit>, i: int) -> bool {
    to_be_placed(d, units, i) && units[i].attack_range <= 1 && !units[i].kind.hq
}

/// How many of some battalions are of a division.
pub open spec fn of_the_division(units: Seq<BattalionUnit>, s: Seq<usize>, division: usize) -> nat {
    s.filter(|i: usize| units[i as int].division == division).len()
}

/// All battalions that may garrison the city.
pub open spec fn city_troops(d: &Deployment, units: Seq<BattalionUnit>) -> Seq<usize> {
    Seq::new(units.len(), |i: int| i as usize).filter(|i: usize| may_garrison(d, units, i as int))
}

/// How many a division gives at most: a third of its troops, but one in any case.
pub open spec fn most_of_a_division(d: &Deployment, units: Seq<BattalionUnit>, division: usize) -> int {
    let third = of_the_division(units, city_troops(d, units), division) / 3;
    if third == 0 {
        1
    } else {
        third as int
    }
}

proof fn lemma_count_is_filter(units: Seq<BattalionUnit>, s: Seq<usize>, division: usize)
    ensures
        count_where(s, in_same_division(units, division)) == of_the_division(units, s, division),
{
    assert(in_same_division(units, division) =~= (|i: usize| units[i as int].division == division));
    law_matches_keep_their_order(s, in_same_division(units, division));
}

#[verifier::rlimit(40)]
proof fn lemma_troops(d: &Deployment, units: Seq<BattalionUnit>)
    requires
        units.len() <= usize::MAX,
    ensures
        those_where(indices(units.len()), garrison_candidate(d, units)) == city_troops(d, units),
        city_troops(d, units).no_duplicates(),
        forall|k: int|
            0 <= k < city_troops(d, units).len() ==> (#[trigger] city_troops(d, units)[k]) < units.len() && may_garrison(
                d,
                units,
                city_troops(d, units)[k] as int,
            ),
        forall|i: int|
            0 <= i < units.len() && #[trigger] may_garrison(d, units, i) ==> city_troops(d, units).contains(i as usize),
        city_troops(d, units).len() <= units.len(),
{
    let all = indices(units.len());
    let ok = garrison_candidate(d, units);
    let f = |i: usize| may_garrison(d, units, i as int);
    assert(ok =~= f);
    assert(all =~= Seq::new(units.len(), |i: int| i as usize));
    law_matches_keep_their_order(all, ok);
    law_those_where(all, ok);
    lemma_filter_of_indices(units.len(), ok);
    let s = those_where(all, ok);
    assert forall|k: int| 0 <= k < s.len() implies (#[trigger] s[k]) < units.len() && may_garrison(d, units, s[k] as int) by {
        assert(s.contains(s[k]));
        assert(ok(s[k]));
    }
    assert forall|i: int| 0 <= i < units.len() && #[trigger] may_garrison(d, units, i) implies s.contains(i as usize) by {
        assert(all[i] == i as usize);
        assert(all.contains(i as usize));
        assert(ok(i as usize));
    }
}

/// The list holds the battalions of another, the weakest first.
spec fn ranked_by_weakness(units: Seq<BattalionUnit>, s: Seq<usize>, of: Seq<usize>) -> bool {
    &&& s.len() == of.len()
    &&& s.no_duplicates()
    &&& forall|k: int| 0 <= k < s.len() ==> of.contains(#[trigger] s[k])
    &&& forall|k: int| 0 <= k < of.len() ==> s.contains(#[trigger] of[k])
    &&& forall|x: int, y: int|
        0 <= x < y < s.len() ==> units[(#[trigger] s[x]) as int].org_ratio < units[(#[trigger] s[y]) as int].org_ratio || (
        units[s[x] as int].org_ratio == units[s[y] as int].org_ratio && s[x] <= s[y])
}

proof fn lemma_weakest_first(units: Seq<BattalionUnit>, of: Seq<usize>)
    requires
        of.len() <= usize::MAX,
        of.no_duplicates(),
    ensures
        ranked_by_weakness(units, weakest_first(units, of), of),
{
    let keys = weakness_ranks(units, of);
    law_ranking(keys);
    let order = ranked(keys);
    let s = weakest_first(units, of);
    assert forall|x: int, y: int| 0 <= x < y < s.len() implies s[x] != s[y] by {
        assert(s[x] == of[order[x] as int] && s[y] == of[order[y] as int]);
        assert(order[x] != order[y]);
    }
    assert forall|k: int| 0 <= k < s.len() implies of.contains(#[trigger] s[k]) by {
        assert(s[k] == of[order[k] as int]);
    }
    assert forall|k: int| 0 <= k < of.len() implies s.contains(#[trigger] of[k]) by {
        let j = lemma_ranked_holds(order, k);
        assert(s[j] == of[k]);
    }
    assert forall|x: int, y: int| 0 <= x < y < s.len() implies units[(#[trigger] s[x]) as int].org_ratio < units[(
    #[trigger] s[y]) as int].org_ratio || (units[s[x] as int].org_ratio == units[s[y] as int].org_ratio && s[x] <= s[y]) by {
        assert(!crate::pick::before(keys[order[y] as int], keys[order[x] as int]));
    }
}

/// A list of the weakest holds them all, the weakest first and equals as they are
/// listed.
pub proof fn law_the_weakest_come_first(units: Seq<BattalionUnit>, of: Seq<usize>, x: int, y: int, k: int)
    requires
        of.len() <= usize::MAX,
        of.no_duplicates(),
    ensures
        weakest_first(units, of).len() == of.len(),
        0 <= x < y < of.len() ==> units[weakest_first(units, of)[x] as int].org_ratio <= units[weakest_first(
            units,
            of,
        )[y] as int].org_ratio,
        0 <= x < y < of.len() && units[weakest_first(units, of)[x] as int].org_ratio == units[weakest_first(
            units,
            of,
        )[y] as int].org_ratio ==> weakest_first(units, of)[x] < weakest_first(units, of)[y],
        0 <= k < of.len() ==> weakest_first(units, of).contains(of[k]) && of.contains(weakest_first(units, of)[k]),
{
    lemma_weakest_first(units, of);
}

proof fn lemma_cap(d: &Deployment, units: Seq<BattalionUnit>, pool: Seq<usize>, division: usize)
    requires
        units.len() <= usize::MAX,
        ranked_by_weakness(units, pool, city_troops(d, units)),
    ensures
        garrison_cap(units, pool, division) == most_of_a_division(d, units, division),
{
    let troops = city_troops(d, units);
    lemma_troops(d, units);
    lemma_count_is_filter(units, pool, division);
    let f = |i: usize| units[i as int].division == division;
    assert(pool.to_multiset() =~= troops.to_multiset()) by {
        lemma_same_members(pool, troops);
    }
    lemma_filter_len(pool, f);
    lemma_filter_len(troops, f);
}

proof fn lemma_same_members(a: Seq<usize>, b: Seq<usize>)
    requires
        a.no_duplicates(),
        b.no_duplicates(),
        forall|k: int| 0 <= k < a.len() ==> b.contains(#[trigger] a[k]),
        forall|k: int| 0 <= k < b.len() ==> a.contains(#[trigger] b[k]),
    ensures
        a.to_multiset() == b.to_multiset(),
{
    a.lemma_multiset_has_no_duplicates();
    b.lemma_multiset_has_no_duplicates();
    a.to_multiset_ensures();
    b.to_multiset_ensures();
    assert forall|x: usize| a.to_multiset().count(x) == b.to_multiset().count(x) by {
        assert(a.to_multiset().contains(x) <==> a.contains(x));
        assert(b.to_multiset().contains(x) <==> b.contains(x));
        if a.contains(x) {
            let k = choose|k: int| 0 <= k < a.len() && a[k] == x;
            assert(b.contains(a[k]));
        }
        if b.contains(x) {
            let k = choose|k: int| 0 <= k < b.len() && b[k] == x;
            assert(a.contains(b[k]));
        }
    }
    assert(a.to_multiset() =~= b.to_multiset());
}

proof fn lemma_filter_len(s: Seq<usize>, f: spec_fn(usize) -> bool)
    ensures
        s.filter(f).len() == s.to_multiset().filter(f).len(),
    decreases s.len(),
{
    reveal(Seq::filter);
    if s.len() > 0 {
        let t = s.drop_last();
        let x = s.last();
        lemma_filter_len(t, f);
        assert(s =~= t.push(x));
        t.to_multiset_ensures();
        s.to_multiset_ensures();
        assert(s.to_multiset() =~= t.to_multiset().insert(x));
        if f(x) {
            assert(s.to_multiset().filter(f) =~= t.to_multiset().filter(f).insert(x));
        } else {
            assert(s.to_multiset().filter(f) =~= t.to_multiset().filter(f));
        }
    } else {
        s.to_multiset_ensures();
        assert(s.to_multiset().filter(f) =~= vstd::multiset::Multiset::empty());
    }
}

/// What is accepted of the first `n` of a pool: they stand in the order of the pool,
/// and whoever is left out found its division at its cap with members that stand
/// before it.
spec fn accepted_ok(d: &Deployment, units: Seq<BattalionUnit>, pool: Seq<usize>, n: int, s: Seq<usize>, at: Seq<int>) -> bool {
    &&& at.len() == s.len()
    &&& forall|k: int| 0 <= k < s.len() ==> 0 <= (#[trigger] at[k]) < n && s[k] == pool[at[k]]
    &&& forall|k: int, l: int| 0 <= k < l < s.len() ==> (#[trigger] at[k]) < (#[trigger] at[l])
    &&& forall|x: int|
        0 <= x < n && !s.contains(#[trigger] pool[x]) ==> !all_in_city(d) && count_where(
            s,
            in_same_division(units, units[pool[x] as int].division),
        ) >= garrison_cap(units, pool, units[pool[x] as int].division) && forall|k: int|
            0 <= k < s.len() && units[(#[trigger] s[k]) as int].division == units[pool[x] as int].division ==> at[k] < x
    &&& forall|division: usize|
        !all_in_city(d) ==> #[trigger] count_where(s, in_same_division(units, division)) <= garrison_cap(
            units,
            pool,
            division,
        )
}

#[verifier::rlimit(40)]
#[verifier::spinoff_prover]
proof fn lemma_accepted(d: &Deployment, units: Seq<BattalionUnit>, pool: Seq<usize>, n: nat) -> (at: Seq<int>)
    requires
        n <= pool.len(),
    ensures
        accepted_ok(d, units, pool, n as int, accepted_upto(d, units, pool, n), at),
    decreases n,
{
    if n == 0 {
        Seq::empty()
    } else {
        let m = (n - 1) as nat;
        let before = lemma_accepted(d, units, pool, m);
        let rest = accepted_upto(d, units, pool, m);
        let s = accepted_upto(d, units, pool, n);
        let division = units[pool[m as int] as int].division;
        if s.len() > rest.len() {
            let at = before.push(m as int);
            assert(s.drop_last() =~= rest);
            assert forall|e: usize| count_where(s, in_same_division(units, e)) == #[trigger] count_where(
                rest,
                in_same_division(units, e),
            ) + if division == e {
                1nat
            } else {
                0nat
            } by {}
            assert forall|x: int| 0 <= x < n && !s.contains(#[trigger] pool[x]) implies !all_in_city(d) && count_where(
                s,
                in_same_division(units, units[pool[x] as int].division),
            ) >= garrison_cap(units, pool, units[pool[x] as int].division) && forall|k: int|
                0 <= k < s.len() && units[(#[trigger] s[k]) as int].division == units[pool[x] as int].division ==> at[k] < x by {
                assert(s[s.len() - 1] == pool[m as int]);
                assert(s.contains(pool[m as int]));
                assert(x < m);
                if rest.contains(pool[x]) {
                    let k = choose|k: int| 0 <= k < rest.len() && rest[k] == pool[x];
                    assert(s[k] == pool[x]);
                }
                let e = units[pool[x] as int].division;
                assert(count_where(s, in_same_division(units, e)) == count_where(rest, in_same_division(units, e)) + if division
                    == e {
                    1nat
                } else {
                    0nat
                });
                assert forall|k: int| 0 <= k < s.len() && units[(#[trigger] s[k]) as int].division == e implies at[k] < x by {
                    if k < rest.len() {
                        assert(s[k] == rest[k]);
                    }
                }
            }
            assert forall|e: usize| !all_in_city(d) implies #[trigger] count_where(s, in_same_division(units, e))
                <= garrison_cap(units, pool, e) by {
                assert(count_where(s, in_same_division(units, e)) == count_where(rest, in_same_division(units, e)) + if division
                    == e {
                    1nat
                } else {
                    0nat
                });
            }
            at
        } else {
            assert(s == rest);
            before
        }
    }
}

/// How many go into the city at most: under a city defence as many as it has hexes;
/// else a third of its hexes, but at least three and, beyond three, at most half of
/// the troops, and none where there are fewer than six.
pub open spec fn most_of_all(d: &Deployment, units: Seq<BattalionUnit>) -> int {
    let hexes = d.zone@.filter(|h: HexCoord| d.grid.on_map(h) && d.grid.content(h).urban).len();
    let troops = city_troops(d, units).len();
    if d.tactic == CombatTactic::UrbanDefense {
        hexes as int
    } else if troops < 6 {
        0
    } else if hexes < 9 {
        3
    } else if hexes / 3 > troops / 2 {
        troops as int / 2
    } else {
        hexes as int / 3
    }
}

/// The garrison is drawn from the weakest, the weakest first. It holds only
/// battalions that may garrison the city, each once. Whoever of a division stays
/// out has no smaller share of its organisation than anybody of that division that
/// goes in; and it stays out only because its division gives as many as it may,
/// because the garrison is full, or both. Nobody of a division beyond its most and
/// nobody beyond the most of all goes in; under a city defence divisions have no
/// such limit. Only a defender of at least three city hexes has a garrison.
#[verifier::rlimit(40)]
#[verifier::spinoff_prover]
pub proof fn law_the_garrison_is_drawn_from_the_weakest(
    d: &Deployment,
    units: Seq<BattalionUnit>,
    x: int,
    z: int,
    i: int,
    division: usize,
)
    requires
        units.len() <= usize::MAX,
        d.zone@.len() <= usize::MAX,
        0 <= i < units.len() && may_garrison(d, units, i),
    ensures
        ({
            let g = garrison_of(d, units);
            let hexes = d.zone@.filter(|h: HexCoord| d.grid.on_map(h) && d.grid.content(h).urban).len();
            let stays_out = !g.contains(i as usize);
            let unlimited = d.tactic == CombatTactic::UrbanDefense;
            &&& d.side == Side::Attacker || hexes < 3 ==> g.len() == 0
            &&& d.side == Side::Defender && hexes >= 3 ==> {
                &&& g.no_duplicates()
                &&& 0 <= x < z < g.len() ==> units[g[x] as int].org_ratio <= units[g[z] as int].org_ratio
                &&& 0 <= x < g.len() ==> g[x] < units.len() && may_garrison(d, units, g[x] as int)
                &&& 0 <= x < g.len() && stays_out && units[g[x] as int].division == units[i].division
                    ==> units[g[x] as int].org_ratio <= units[i].org_ratio
                &&& stays_out ==> g.len() == most_of_all(d, units) || (!unlimited && of_the_division(
                    units,
                    g,
                    units[i].division,
                ) == most_of_a_division(d, units, units[i].division))
                &&& g.len() <= most_of_all(d, units)
                &&& !unlimited ==> of_the_division(units, g, division) <= most_of_a_division(d, units, division)
            }
        }),
{
    let ok = urban_in(d);
    assert(ok =~= (|h: HexCoord| d.grid.on_map(h) && d.grid.content(h).urban));
    law_matches_keep_their_order(d.zone@, ok);
    let hexes = city_hexes(d).len();
    let g = garrison_of(d, units);
    if d.side == Side::Defender && hexes >= 3 {
        let troops = city_troops(d, units);
        lemma_troops(d, units);
        lemma_weakest_first(units, troops);
        let pool = weakest_first(units, troops);
        let at = lemma_accepted(d, units, pool, pool.len());
        let s = accepted_upto(d, units, pool, pool.len());
        let quota = garrison_quota(d, pool.len());
        let e = units[i].division;
        lemma_cap(d, units, pool, e);
        lemma_cap(d, units, pool, division);
        lemma_count_is_filter(units, g, e);
        lemma_count_is_filter(units, g, division);
        assert(s.len() <= pool.len()) by {
            lemma_increasing(at, pool.len() as int);
        }
        assert(forall|k: int| 0 <= k < g.len() ==> g[k] == s[k]);
        assert(troops.contains(i as usize));
        let t = choose|t: int| 0 <= t < troops.len() && troops[t] == i as usize;
        assert(pool.contains(troops[t]));
        let y = choose|y: int| 0 <= y < pool.len() && pool[y] == i as usize;
        if 0 <= x < g.len() {
            assert(g[x] == pool[at[x]]);
            assert(troops.contains(pool[at[x]]));
            let k = choose|k: int| 0 <= k < troops.len() && troops[k] == pool[at[x]];
            assert(may_garrison(d, units, troops[k] as int));
        }
        if 0 <= x < z < g.len() {
            assert(at[x] < at[z]);
            assert(g[x] == pool[at[x]] && g[z] == pool[at[z]]);
        }
        assert forall|k: int, l: int| 0 <= k < l < g.len() implies g[k] != g[l] by {
            assert(at[k] < at[l]);
            assert(g[k] == pool[at[k]] && g[l] == pool[at[l]]);
        }
        crate::muster::lemma_count_of_prefix(s, in_same_division(units, division), g.len() as int);
        assert(s.take(g.len() as int) =~= g);
        if !g.contains(i as usize) {
            if s.contains(pool[y]) {
                let k = choose|k: int| 0 <= k < s.len() && s[k] == pool[y];
                assert(k >= g.len()) by {
                    if k < g.len() {
                        assert(g[k] == pool[y]);
                    }
                }
                assert(g.len() == quota);
                assert(at[k] == y) by {
                    assert(pool[at[k]] == pool[y]);
                }
                if 0 <= x < g.len() {
                    assert(at[x] < at[k]);
                }
            } else {
                assert(!s.contains(pool[y]));
                if g.len() < s.len() {
                    assert(g.len() == quota);
                } else {
                    assert(g =~= s);
                }
                if 0 <= x < g.len() && units[g[x] as int].division == e {
                    assert(s[x] == g[x]);
                    assert(at[x] < y);
                }
            }
        }
        if all_in_city(d) {
            assert(s.len() == pool.len()) by {
                lemma_all_accepted(d, units, pool, pool.len());
            }
        }
        assert(quota <= most_of_all(d, units));
        assert(pool.len() == troops.len());
        if !all_in_city(d) {
            assert(quota == most_of_all(d, units)) by {
                assert(hexes / 3 < 3 <==> hexes < 9);
            }
        }
    }
}

proof fn lemma_increasing(at: Seq<int>, n: int)
    requires
        n >= 0,
        forall|k: int| 0 <= k < at.len() ==> 0 <= (#[trigger] at[k]) < n,
        forall|k: int, l: int| 0 <= k < l < at.len() ==> (#[trigger] at[k]) < (#[trigger] at[l]),
    ensures
        at.len() <= n,
    decreases at.len(),
{
    if at.len() > 0 {
        let t = at.drop_last();
        assert forall|k: int| 0 <= k < t.len() implies 0 <= (#[trigger] t[k]) < at.last() by {
            assert(t[k] == at[k]);
            assert(at[k] < at[at.len() - 1]);
        }
        lemma_increasing(t, at.last());
    }
}

proof fn lemma_all_accepted(d: &Deployment, units: Seq<BattalionUnit>, pool: Seq<usize>, n: nat)
    requires
        all_in_city(d),
        n <= pool.len(),
    ensures
        accepted_upto(d, units, pool, n).len() == n,
    decreases n,
{
    if n > 0 {
        lemma_all_accepted(d, units, pool, (n - 1) as nat);
    }
}

/// Whoever of two battalions of one division goes into the garrison while the other,
/// which could, stays out, has no larger share of its organisation.
pub proof fn law_strong_battalions_stay_out_of_the_garrison(d: &Deployment, units: Seq<BattalionUnit>, i: int, j: int)
    requires
        units.len() <= usize::MAX,
        d.zone@.len() <= usize::MAX,
        0 <= i < units.len(),
        0 <= j < units.len(),
        units[i].division == units[j].division,
        garrison_of(d, units).contains(i as usize),
        !garrison_of(d, units).contains(j as usize),
        units[j].side == d.side && (d.only_undeployed ==> units[j].undeployed),
        d.only_division matches Some(n) ==> units[j].division == n,
        units[j].state == UnitState::Active && units[j].fit && units[j].attack_range <= 1 && !units[j].kind.hq,
    ensures
        units[i].org_ratio <= units[j].org_ratio,
{
    let g = garrison_of(d, units);
    let x = choose|x: int| 0 <= x < g.len() && g[x] == i as usize;
    assert(may_garrison(d, units, j));
    law_the_garrison_is_drawn_from_the_weakest(d, units, x, x, j, units[j].division);
}

/// A defender's garrison is no larger than its city has hexes under a city defence, and
/// under no other card larger than half of the troops and three.
pub proof fn law_the_garrison_leaves_a_line(d: &Deployment, units: Seq<BattalionUnit>, i: int)
    requires
        units.len() <= usize::MAX,
        d.zone@.len() <= usize::MAX,
        0 <= i < units.len() && may_garrison(d, units, i),
    ensures
        ({
            let n = garrison_of(d, units).len();
            let troops = city_troops(d, units).len();
            &&& d.side == Side::Attacker ==> n == 0
            &&& d.tactic != CombatTactic::UrbanDefense && troops < 6 ==> n == 0
            &&& d.tactic != CombatTactic::UrbanDefense ==> n <= 3 || 2 * n <= troops
            &&& d.tactic != CombatTactic::UrbanDefense ==> n <= 3 || 3 * n <= d.zone@.filter(
                |h: HexCoord| d.grid.on_map(h) && d.grid.content(h).urban,
            ).len()
        }),
{
    law_the_garrison_is_drawn_from_the_weakest(d, units, 0, 0, i, 0);
}

} // verus!
