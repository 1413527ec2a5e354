//! What holds of every site that a deployment picks, and of every formation.
use vstd::prelude::*;
use crate::deploy::{
    armor_last_upto, band_base, best_site, command_anchor, commanded, counted, counted_line,
    counted_support, deployed, divisions_of, edge_upto, front_of, front_sum, garrison_candidate,
    garrison_of, garrison_upto, garrisoned, headed, hq_candidate, hqs_of, hqs_upto, in_band,
    in_same_division, is_crowded, line_candidate, line_order, line_search, line_upto, lined_up,
    listed_upto, observed, observers_of, observers_upto, of_division, of_whole_line, own_line,
    place_sum, roster_upto, rounded, rows_of, score_of, sector_of, site_keys, standoff,
    strength_upto, support_candidate, support_reference, support_site, support_slot, support_target,
    support_upto, supported, table_of, weakest_first, Asked, DeployBook, DeployView, Deployment,
    Search, Sector, SiteRow, Slot, Target, Wing,
};
use crate::flight::law_nearest_hex_is_nearest;
use crate::formation::{
    crosses_river, echelon_from, formation_of, ground_of, height_at, is_crest, on_bank, share_upto,
    Echelon, Formation, Shape,
};
use crate::geometry::law_matches_keep_their_order;
use crate::grid::HexGrid;
use crate::hex::{hex_distance, HexCoord};
use crate::pick::{count_where, first_where, indices, law_first_where, law_least, law_those_where, least, those_where};
use crate::ranks::{law_the_weakest_come_first, to_be_placed};
use crate::retreat::{namesake, nearest_hex};
use crate::tactic::CombatTactic;
use crate::unit::{BattalionUnit, Side, UnitState};

verus! {

/// A hex of the zone is as far from the front as from the nearest hex of the enemy's
/// zone.
pub proof fn law_the_front_is_where_the_enemy_is_nearest(d: &Deployment, h: HexCoord, k: int)
    requires
        0 <= k < d.enemy_zone@.len(),
    ensures
        front_of(d, h) <= hex_distance(h, d.enemy_zone@[k]),
        exists|j: int| 0 <= j < d.enemy_zone@.len() && front_of(d, h) == hex_distance(h, #[trigger] d.enemy_zone@[j]),
{
    law_nearest_hex_is_nearest(d.enemy_zone@, h);
}

/// A hex is crowded exactly if a taken one is it or next to it; then it is worth its
/// crowded score, and else its open one.
pub proof fn law_crowding_counts(row: SiteRow, used: Seq<HexCoord>, h: HexCoord)
    ensures
        is_crowded(used, h) <==> exists|k: int| 0 <= k < used.len() && hex_distance(h, #[trigger] used[k]) <= 1,
        score_of(row, used, h) == if exists|k: int| 0 <= k < used.len() && hex_distance(h, #[trigger] used[k]) <= 1 {
            row.crowded
        } else {
            row.open
        },
{
    if is_crowded(used, h) {
        let k = choose|k: int| 0 <= k < used.len() && hex_distance(#[trigger] used[k], h) <= 1;
        assert(hex_distance(h, used[k]) <= 1);
    }
    if exists|k: int| 0 <= k < used.len() && hex_distance(h, #[trigger] used[k]) <= 1 {
        let k = choose|k: int| 0 <= k < used.len() && hex_distance(h, #[trigger] used[k]) <= 1;
        assert(hex_distance(used[k], h) <= 1);
    }
}

/// A band reaches from one and a half hexes before its target to eleven and a half
/// behind it or, unbounded, to any depth: here of a target that lies `at` hexes off.
pub proof fn law_a_band_reaches_behind_its_target(distance: int, at: int, target: Target, bounded: bool)
    requires
        target.count > 0,
        target.sum == target.count * (at - target.offset),
    ensures
        in_band(distance, target, bounded) <==> distance >= at - 1 && (bounded ==> distance <= at + 11),
{
    let c = target.count as int;
    let away = 2 * c * (distance - target.offset) - 2 * target.sum;
    assert(away == 2 * c * (distance - at)) by (nonlinear_arith)
        requires
            away == 2 * c * (distance - target.offset) - 2 * target.sum,
            target.sum == c * (at - target.offset),
    ;
    let x = distance - at;
    assert((-3 * c <= 2 * c * x) <==> x >= -1) by (nonlinear_arith)
        requires
            c > 0,
    ;
    assert((2 * c * x <= 23 * c) <==> x <= 11) by (nonlinear_arith)
        requires
            c > 0,
    ;
}

/// The table that the book has for a search: the first with a row for each hex of the
/// zone. A headquarters needs none.
pub open spec fn told_table(d: &Deployment, b: &DeployBook, s: Search, k: int) -> bool {
    &&& 0 <= k < b.tables@.len()
    &&& b.tables@[k].search == s && b.tables@[k].rows@.len() == d.zone@.len()
    &&& forall|j: int|
        0 <= j < k ==> !((#[trigger] b.tables@[j]).search == s && b.tables@[j].rows@.len() == d.zone@.len())
}

/// What a hex is worth in a search is what the first fitting table says; without one
/// the search is asked about.
pub proof fn law_worth_is_looked_up(d: &Deployment, b: &DeployBook, s: Search, k: int)
    requires
        !(s is Rear),
    ensures
        told_table(d, b, s, k) ==> rows_of(d, b, s) == Some(b.tables@[k].rows@),
        (forall|j: int|
            0 <= j < b.tables@.len() ==> !((#[trigger] b.tables@[j]).search == s && b.tables@[j].rows@.len()
                == d.zone@.len())) ==> rows_of(d, b, s) is None && (forall|used: Seq<HexCoord>|
            #[trigger] best_site(d, b, used, s) == Err::<Option<HexCoord>, Search>(s)),
{
    law_first_where(b.tables@, table_of(d, s));
    if told_table(d, b, s, k) {
        assert(table_of(d, s)(b.tables@[k]));
    }
}

/// Hex `i` of the zone is open to a search: nobody has taken it, and it is a city hex
/// for the garrison, in the sector and the band for a band, in the sector for any
/// ground, and in the sector and a crest for an observer.
pub open spec fn open_site(d: &Deployment, used: Seq<HexCoord>, s: Search, rows: Seq<SiteRow>, i: int) -> bool {
    let h = d.zone@[i];
    &&& !used.contains(h)
    &&& match s {
        Search::Garrison { who: _ } => d.grid.on_map(h) && d.grid.content(h).urban,
        Search::Band { who: _, sector: _, target, bounded, slot: _ } => rows[i].inside && in_band(
            front_of(d, h),
            target,
            bounded,
        ),
        Search::Ground { who: _, sector: _, target: _, slot: _ } => rows[i].inside,
        Search::Crest { sector: _, near: _ } => rows[i].inside && is_crest(d.grid, h, d.sightlines@[i]@),
        Search::Rear { anchor: _ } => true,
    }
}

/// Hex `i` of the zone is a better site than hex `j`: for the garrison the lower
/// score, then the lesser hex; for the line and the guns the higher one, then the
/// nearer to the slot, then the greater hex; for
/// an observer the nearer crest, then the higher; for a headquarters the one that
/// strays less from two hexes round its division, then the one farther from the front.
pub open spec fn better_site(d: &Deployment, used: Seq<HexCoord>, s: Search, rows: Seq<SiteRow>, i: int, j: int) -> bool {
    let x = d.zone@[i];
    let y = d.zone@[j];
    let a = score_of(rows[i], used, x);
    let c = score_of(rows[j], used, y);
    match s {
        Search::Garrison { who: _ } => a < c || (a == c && (x.q < y.q || (x.q == y.q && x.r < y.r))),
        Search::Band { who: _, sector: _, target: _, bounded: _, slot: _ } => a > c || (a == c && (rows[i].near
            < rows[j].near || (rows[i].near == rows[j].near && (x.q > y.q || (x.q == y.q && x.r > y.r))))),
        Search::Ground { who: _, sector: _, target: _, slot: _ } => a > c || (a == c && (rows[i].near < rows[j].near || (
        rows[i].near == rows[j].near && (x.q > y.q || (x.q == y.q && x.r > y.r))))),
        Search::Crest { sector: _, near } => hex_distance(near, x) < hex_distance(near, y) || (hex_distance(near, x)
            == hex_distance(near, y) && height_at(d.grid, x) > height_at(d.grid, y)),
        Search::Rear { anchor } => {
            let stray = |h: HexCoord|
                match anchor {
                    Some(c) => if hex_distance(c, h) <= 2 {
                        0
                    } else {
                        hex_distance(c, h) - 2
                    },
                    None => 0,
                };
            stray(x) < stray(y) || (stray(x) == stray(y) && front_of(d, x) > front_of(d, y))
        },
    }
}

proof fn lemma_front_fits(d: &Deployment, h: HexCoord)
    ensures
        0 <= front_of(d, h) <= 0x4_0000_0000,
{
    law_nearest_hex_is_nearest(d.enemy_zone@, h);
    if let Some(m) = nearest_hex(d.enemy_zone@, h) {
        let k = choose|k: int| 0 <= k < d.enemy_zone@.len() && m == hex_distance(h, #[trigger] d.enemy_zone@[k]);
        assert(hex_distance(h, d.enemy_zone@[k]) <= 0x4_0000_0000);
    }
}

/// The site that is picked is open to the search and none that is open is better; it is
/// better than all that are listed before it. None is picked only where none is open.
#[verifier::rlimit(40)]
pub proof fn law_the_best_open_site_is_picked(d: &Deployment, b: &DeployBook, used: Seq<HexCoord>, s: Search, j: int) -> (i: int)
    ensures
        rows_of(d, b, s) matches Some(rows) ==> match best_site(d, b, used, s) {
            Ok(Some(h)) => {
                &&& 0 <= i < d.zone@.len() && h == d.zone@[i]
                &&& open_site(d, used, s, rows, i)
                &&& 0 <= j < d.zone@.len() && open_site(d, used, s, rows, j) ==> !better_site(d, used, s, rows, j, i)
                &&& 0 <= j < i && open_site(d, used, s, rows, j) ==> better_site(d, used, s, rows, i, j)
            },
            Ok(None) => 0 <= j < d.zone@.len() ==> !open_site(d, used, s, rows, j),
            Err(_) => false,
        },
{
    match rows_of(d, b, s) {
        None => 0,
        Some(rows) => {
            let keys = site_keys(d, used, s, rows);
            law_least(keys);
            if 0 <= j < d.zone@.len() {
                lemma_open_site(d, used, s, rows, j);
            }
            match least(keys) {
                Some(i) => {
                    lemma_open_site(d, used, s, rows, i);
                    if 0 <= j < d.zone@.len() && open_site(d, used, s, rows, j) {
                        assert(keys[j] is Some);
                        assert(!crate::pick::before(keys[j]->0, keys[i]->0));
                        if better_site(d, used, s, rows, j, i) {
                            lemma_better_site(d, used, s, rows, j, i);
                        }
                        if j < i {
                            lemma_worse_site(d, used, s, rows, i, j);
                        }
                    }
                    i
                },
                None => {
                    if 0 <= j < d.zone@.len() {
                        assert(keys[j] is None);
                    }
                    0
                },
            }
        },
    }
}

proof fn lemma_open_site(d: &Deployment, used: Seq<HexCoord>, s: Search, rows: Seq<SiteRow>, i: int)
    ensures
        crate::deploy::site_key(d, used, s, rows[i], i) is Some <==> open_site(d, used, s, rows, i),
{
}

#[verifier::rlimit(40)]
proof fn lemma_better_site(d: &Deployment, used: Seq<HexCoord>, s: Search, rows: Seq<SiteRow>, i: int, j: int)
    requires
        open_site(d, used, s, rows, i),
        open_site(d, used, s, rows, j),
        better_site(d, used, s, rows, i, j),
    ensures
        crate::pick::before(
            crate::deploy::site_key(d, used, s, rows[i], i)->0,
            crate::deploy::site_key(d, used, s, rows[j], j)->0,
        ),
{
    let x = d.zone@[i];
    let y = d.zone@[j];
    lemma_front_fits(d, x);
    lemma_front_fits(d, y);
    match s {
        Search::Garrison { who } => {},
        Search::Band { who, sector, target, bounded, slot } => {},
        Search::Ground { who, sector, target, slot } => {},
        Search::Crest { sector, near } => {
            crate::hex::law_distance_is_a_metric(near, x, near);
            crate::hex::law_distance_is_a_metric(near, y, near);
            lemma_distance_fits(x, near);
            lemma_distance_fits(y, near);
        },
        Search::Rear { anchor } => {
            if let Some(c) = anchor {
                crate::hex::law_distance_is_a_metric(c, x, c);
                crate::hex::law_distance_is_a_metric(c, y, c);
                lemma_distance_fits(x, c);
                lemma_distance_fits(y, c);
            }
        },
    }
}

#[verifier::rlimit(40)]
proof fn lemma_worse_site(d: &Deployment, used: Seq<HexCoord>, s: Search, rows: Seq<SiteRow>, i: int, j: int)
    requires
        open_site(d, used, s, rows, i),
        open_site(d, used, s, rows, j),
        crate::pick::before(
            crate::deploy::site_key(d, used, s, rows[i], i)->0,
            crate::deploy::site_key(d, used, s, rows[j], j)->0,
        ),
    ensures
        better_site(d, used, s, rows, i, j),
{
    let x = d.zone@[i];
    let y = d.zone@[j];
    lemma_front_fits(d, x);
    lemma_front_fits(d, y);
    match s {
        Search::Garrison { who } => {},
        Search::Band { who, sector, target, bounded, slot } => {},
        Search::Ground { who, sector, target, slot } => {},
        Search::Crest { sector, near } => {
            crate::hex::law_distance_is_a_metric(near, x, near);
            crate::hex::law_distance_is_a_metric(near, y, near);
            lemma_distance_fits(x, near);
            lemma_distance_fits(y, near);
        },
        Search::Rear { anchor } => {
            if let Some(c) = anchor {
                crate::hex::law_distance_is_a_metric(c, x, c);
                crate::hex::law_distance_is_a_metric(c, y, c);
                lemma_distance_fits(x, c);
                lemma_distance_fits(y, c);
            }
        },
    }
}

proof fn lemma_distance_fits(x: HexCoord, y: HexCoord)
    ensures
        0 <= hex_distance(x, y) <= 0x4_0000_0000,
{
}

/// Battalion `i` stands in the line: it may be placed, is not of the garrison,
/// reaches no farther than the next hex and is neither a headquarters nor flak.
pub open spec fn of_the_line(d: &Deployment, units: Seq<BattalionUnit>, garrison: Seq<usize>, i: int) -> bool {
    &&& to_be_placed(d, units, i) && !garrison.contains(units[i].id)
    &&& units[i].attack_range <= 1 && !units[i].kind.hq && !units[i].kind.anti_air
}

/// Battalion `i` supports the line: it may be placed, is not of the garrison, and
/// reaches farther than the next hex or is flak.
pub open spec fn of_the_guns(d: &Deployment, units: Seq<BattalionUnit>, garrison: Seq<usize>, i: int) -> bool {
    &&& to_be_placed(d, units, i) && !garrison.contains(units[i].id)
    &&& units[i].attack_range > 1 || units[i].kind.anti_air
}

/// Who is placed in which pass.
pub proof fn law_who_is_placed_when(d: &Deployment, units: Seq<BattalionUnit>, garrison: Seq<usize>, i: int)
    requires
        0 <= i < units.len() <= usize::MAX,
    ensures
        garrison_candidate(d, units)(i as usize) <==> crate::ranks::may_garrison(d, units, i),
        line_candidate(d, units, garrison)(i as usize) <==> of_the_line(d, units, garrison, i),
        support_candidate(d, units, garrison)(i as usize) <==> of_the_guns(d, units, garrison, i),
        hq_candidate(d, units)(i as usize) <==> to_be_placed(d, units, i) && units[i].kind.hq,
{
}

/// The headquarters that are placed are those that may be, each by who bears its id.
pub proof fn law_every_headquarters_is_placed(d: &Deployment, units: Seq<BattalionUnit>, i: int)
    requires
        0 <= i < units.len() <= usize::MAX,
    ensures
        to_be_placed(d, units, i) && units[i].kind.hq ==> hqs_of(d, units).contains(namesake(units, i)),
        0 <= i < hqs_of(d, units).len() ==> exists|j: int|
            0 <= j < units.len() && #[trigger] to_be_placed(d, units, j) && units[j].kind.hq && hqs_of(d, units)[i]
                == namesake(units, j),
{
    let all = indices(units.len());
    let ok = hq_candidate(d, units);
    law_those_where(all, ok);
    let heads = those_where(all, ok);
    if to_be_placed(d, units, i) && units[i].kind.hq {
        assert(all[i] == i as usize);
        assert(heads.contains(i as usize));
        let k = choose|k: int| 0 <= k < heads.len() && heads[k] == i as usize;
        assert(hqs_of(d, units)[k] == namesake(units, i));
    }
    if 0 <= i < hqs_of(d, units).len() {
        assert(heads.contains(heads[i]));
        let j = choose|j: int| 0 <= j < all.len() && all[j] == heads[i];
        assert(to_be_placed(d, units, j));
    }
}

/// The order of a line: its battalions as they are listed or, where armour is the
/// reserve, with the armour of each division behind the rest of it.
pub open spec fn with_armor_last(units: Seq<BattalionUnit>, pool: Seq<usize>) -> Seq<usize> {
    let o = armor_last_upto(units, pool, pool.len());
    o.head + o.tail
}

proof fn lemma_armor_of_one_division(units: Seq<BattalionUnit>, pool: Seq<usize>, n: nat, division: usize)
    requires
        n <= pool.len(),
        forall|k: int| 0 <= k < pool.len() ==> units[(#[trigger] pool[k]) as int].division == division,
    ensures
        ({
            let o = armor_last_upto(units, pool, n);
            &&& o.head == pool.take(n as int).filter(|i: usize| !units[i as int].kind.armor)
            &&& o.tail == pool.take(n as int).filter(|i: usize| units[i as int].kind.armor)
            &&& n > 0 ==> o.last == division
            &&& n == 0 ==> o.last == 0
        }),
    decreases n,
{
    reveal(Seq::filter);
    let f = |i: usize| !units[i as int].kind.armor;
    let g = |i: usize| units[i as int].kind.armor;
    if n > 0 {
        let m = (n - 1) as nat;
        lemma_armor_of_one_division(units, pool, m, division);
        assert(pool.take(n as int).drop_last() =~= pool.take(m as int));
        assert(pool.take(n as int).last() == pool[m as int]);
    } else {
        assert(pool.take(0).filter(f) =~= Seq::<usize>::empty());
        assert(pool.take(0).filter(g) =~= Seq::<usize>::empty());
    }
}

/// Within a division the armour comes last, and both it and the rest keep their
/// order.
pub proof fn law_armor_comes_last_in_its_division(units: Seq<BattalionUnit>, pool: Seq<usize>, division: usize)
    requires
        forall|k: int| 0 <= k < pool.len() ==> units[(#[trigger] pool[k]) as int].division == division,
    ensures
        with_armor_last(units, pool) == pool.filter(|i: usize| !units[i as int].kind.armor) + pool.filter(
            |i: usize| units[i as int].kind.armor,
        ),
{
    lemma_armor_of_one_division(units, pool, pool.len(), division);
    assert(pool.take(pool.len() as int) =~= pool);
}

#[verifier::rlimit(40)]
proof fn lemma_armor_splits(units: Seq<BattalionUnit>, a: Seq<usize>, c: Seq<usize>, n: nat)
    requires
        a.len() > 0,
        0 < n <= c.len(),
        units[a.last() as int].division != 0,
        units[c[0] as int].division != units[a.last() as int].division,
    ensures
        ({
            let o = armor_last_upto(units, a + c, a.len() + n);
            let p = armor_last_upto(units, c, n);
            &&& o.head == with_armor_last(units, a) + p.head
            &&& o.tail == p.tail
            &&& o.last == p.last
        }),
    decreases n,
{
    let m = (n - 1) as nat;
    assert((a + c)[a.len() + n - 1] == c[n - 1]);
    if n > 1 {
        lemma_armor_splits(units, a, c, m);
        let o = armor_last_upto(units, a + c, a.len() + n);
        let p = armor_last_upto(units, c, n);
        assert(o.head =~= with_armor_last(units, a) + p.head);
    } else {
        lemma_armor_prefix(units, a, c, a.len());
        lemma_armor_last_is_last(units, a, a.len());
        let o = armor_last_upto(units, a + c, a.len() + 1);
        let p = armor_last_upto(units, c, 1);
        assert(armor_last_upto(units, c, 0).head =~= Seq::<usize>::empty());
        assert(o.head =~= with_armor_last(units, a) + p.head);
        assert(o.tail =~= p.tail);
    }
}

proof fn lemma_armor_prefix(units: Seq<BattalionUnit>, a: Seq<usize>, c: Seq<usize>, n: nat)
    requires
        n <= a.len(),
    ensures
        armor_last_upto(units, a + c, n) == armor_last_upto(units, a, n),
    decreases n,
{
    if n > 0 {
        lemma_armor_prefix(units, a, c, (n - 1) as nat);
        assert((a + c)[n - 1] == a[n - 1]);
    }
}

proof fn lemma_armor_last_is_last(units: Seq<BattalionUnit>, a: Seq<usize>, n: nat)
    requires
        0 < n <= a.len(),
    ensures
        armor_last_upto(units, a, n).last == units[a[n - 1] as int].division,
{
}

/// Where one division's battalions end and another's begin, the line is that of the
/// first stretch and then that of the second.
pub proof fn law_divisions_line_up_one_after_the_other(units: Seq<BattalionUnit>, a: Seq<usize>, c: Seq<usize>)
    requires
        a.len() > 0 && c.len() > 0,
        units[a.last() as int].division != 0,
        units[c[0] as int].division != units[a.last() as int].division,
    ensures
        with_armor_last(units, a + c) == with_armor_last(units, a) + with_armor_last(units, c),
{
    lemma_armor_splits(units, a, c, c.len());
    assert(with_armor_last(units, a + c) =~= with_armor_last(units, a) + with_armor_last(units, c));
}

/// The line is made up of those that stand in it, in their order unless armour is the
/// reserve.
pub proof fn law_the_line_is_in_order(d: &Deployment, st: DeployView, f: Formation)
    requires
        st.units.len() <= usize::MAX,
    ensures
        ({
            let pool = Seq::new(st.units.len(), |i: int| i as usize).filter(
                |i: usize| of_the_line(d, st.units, st.garrison, i as int),
            );
            line_order(d, st, f) == if f.armor_reserve {
                with_armor_last(st.units, pool)
            } else {
                pool
            }
        }),
{
    let all = indices(st.units.len());
    assert(all =~= Seq::new(st.units.len(), |i: int| i as usize));
    assert(line_candidate(d, st.units, st.garrison) =~= (|i: usize| of_the_line(d, st.units, st.garrison, i as int)));
    law_matches_keep_their_order(all, line_candidate(d, st.units, st.garrison));
}

/// The support is placed in its order.
pub proof fn law_the_guns_are_placed_in_order(d: &Deployment, b: &DeployBook, st: DeployView, f: Formation)
    requires
        st.units.len() <= usize::MAX,
    ensures
        ({
            let guns = Seq::new(st.units.len(), |i: int| i as usize).filter(
                |i: usize| of_the_guns(d, st.units, st.garrison, i as int),
            );
            supported(d, b, st, f) == support_upto(d, b, st, f, guns, guns.len())
        }),
{
    let all = indices(st.units.len());
    assert(all =~= Seq::new(st.units.len(), |i: int| i as usize));
    assert(support_candidate(d, st.units, st.garrison) =~= (|i: usize| of_the_guns(d, st.units, st.garrison, i as int)));
    law_matches_keep_their_order(all, support_candidate(d, st.units, st.garrison));
}

/// A battalion stands in the first echelon whose share, with those before it, covers
/// the middle of its place in the division; in the last where none before does.
pub proof fn law_echelons_fill_from_the_front(e: Seq<Echelon>, i: int, total: int, n: nat)
    requires
        n < e.len(),
    ensures
        ({
            let k = echelon_from(e, i, total, n);
            &&& n <= k < e.len()
            &&& forall|m: int| n <= m < k ==> 100 * (2 * i + 1) > #[trigger] share_upto(e, (m + 1) as nat) * (2 * total)
            &&& k + 1 < e.len() ==> 100 * (2 * i + 1) <= share_upto(e, k + 1) * (2 * total)
        }),
    decreases e.len() - n,
{
    assert forall|m: int| 2 * total * #[trigger] share_upto(e, (m + 1) as nat) == share_upto(e, (m + 1) as nat) * (2 * total) by {
        let x = share_upto(e, (m + 1) as nat);
        assert(2 * total * x == x * (2 * total)) by (nonlinear_arith);
    }
    assert(2 * total * share_upto(e, n + 1) == share_upto(e, n + 1) * (2 * total)) by (nonlinear_arith);
    if n + 1 < e.len() && (2 * i + 1) * 100 > 2 * total * share_upto(e, n + 1) {
        law_echelons_fill_from_the_front(e, i, total, n + 1);
    }
    let k = echelon_from(e, i, total, n);
    assert(2 * total * share_upto(e, k + 1) == share_upto(e, k + 1) * (2 * total)) by (nonlinear_arith);
    assert forall|m: int| n <= m < k implies 100 * (2 * i + 1) > #[trigger] share_upto(e, (m + 1) as nat) * (2 * total) by {
        if m == n {
            assert(share_upto(e, (m + 1) as nat) == share_upto(e, n + 1));
        }
    }
}

/// The front rank of a formation stands where the own zone comes nearest to the
/// enemy's, and an attacker's as many half hexes behind as its band exceeds six.
pub proof fn law_the_front_rank_stands_at_the_edge(d: &Deployment, f: Formation, k: int)
    requires
        0 <= k < d.zone@.len(),
    ensures
        f.band <= 6 ==> band_base(d, f) <= 2 * front_of(d, d.zone@[k]),
        f.band > 6 ==> band_base(d, f) <= 2 * front_of(d, d.zone@[k]) + (f.band - 6),
        ({
            let extra = if f.band > 6 {
                f.band - 6
            } else {
                0
            };
            band_base(d, f) == 2 * 0x7fff_ffff + extra || exists|j: int|
                0 <= j < d.zone@.len() && band_base(d, f) == 2 * front_of(d, #[trigger] d.zone@[j]) + extra
        }),
{
    lemma_edge(d, d.zone@.len(), k);
    if edge_upto(d, d.zone@.len()) != 0x7fff_ffff {
        let j = choose|j: int|
            0 <= j < d.zone@.len() && edge_upto(d, d.zone@.len()) == front_of(d, #[trigger] d.zone@[j]);
        assert(edge_upto(d, d.zone@.len()) == front_of(d, d.zone@[j]));
    }
}

proof fn lemma_edge(d: &Deployment, n: nat, k: int)
    requires
        n <= d.zone@.len(),
    ensures
        0 <= k < n ==> edge_upto(d, n) <= front_of(d, d.zone@[k]),
        edge_upto(d, n) == 0x7fff_ffff || exists|j: int|
            0 <= j < n && edge_upto(d, n) == front_of(d, #[trigger] d.zone@[j]),
    decreases n,
{
    if n > 0 {
        let m = (n - 1) as nat;
        lemma_edge(d, m, k);
        if edge_upto(d, m) != 0x7fff_ffff {
            let j = choose|j: int| 0 <= j < m && edge_upto(d, m) == front_of(d, #[trigger] d.zone@[j]);
            assert(front_of(d, d.zone@[j]) == edge_upto(d, m));
        }
        assert(front_of(d, d.zone@[n - 1]) == front_of(d, d.zone@[m as int]));
    }
}

/// What the `k`-th battalion of the line looks for: its place is after those of its
/// division before it, among all of the division's line; it looks in the band of its
/// echelon, bounded unless it is the last one or the line is loose.
#[verifier::rlimit(40)]
pub proof fn law_what_the_line_looks_for(d: &Deployment, st: DeployView, f: Formation, order: Seq<usize>, k: int)
    requires
        0 <= k < order.len(),
        f.echelons.len() > 0,
        st.units.len() <= usize::MAX,
        order.len() <= usize::MAX,
    ensures
        ({
            let division = st.units[order[k] as int].division;
            let before = order.take(k).filter(|i: usize| st.units[i as int].division == division).len();
            let all = st.units.filter(
                |u: BattalionUnit|
                    u.side == d.side && (d.only_undeployed ==> u.undeployed) && u.state == UnitState::Active && u.fit
                        && u.attack_range <= 1 && !u.kind.hq && !u.kind.anti_air && !st.garrison.contains(u.id)
                        && u.division == division,
            ).len();
            let of = if all == 0 {
                1
            } else {
                all as int
            };
            let e = echelon_from(f.echelons, before as int, of, 0);
            line_search(d, st, f, order, k) == (Search::Band {
                who: order[k],
                sector: sector_of(d, st.units, st.garrison, f.shape, division, false),
                target: Target {
                    sum: band_base(d, f) as i128,
                    count: 2,
                    offset: f.echelons[e as int].offset as i128,
                },
                bounded: !f.loose && e < f.echelons.len() - 1,
                slot: Slot::Even { index: before as usize, of: of as usize },
            })
        }),
{
    let division = st.units[order[k] as int].division;
    let g = |i: usize| st.units[i as int].division == division;
    assert(in_same_division(st.units, division) =~= g);
    law_matches_keep_their_order(order.take(k), g);
    let h = |u: BattalionUnit|
        u.side == d.side && (d.only_undeployed ==> u.undeployed) && u.state == UnitState::Active && u.fit && u.attack_range
            <= 1 && !u.kind.hq && !u.kind.anti_air && !st.garrison.contains(u.id) && u.division == division;
    assert(counted_line(d, st.garrison, division) =~= h);
    law_matches_keep_their_order(st.units, h);
}

/// A defender posts one observer for every eight battalions of its line, but one in
/// any case, from the weakest of those that it places, and nobody of the line that is
/// not an observer is weaker than one.
#[verifier::rlimit(40)]
#[verifier::spinoff_prover]
pub proof fn law_the_weakest_of_the_line_observe(d: &Deployment, st: DeployView, x: int, y: int, i: int)
    requires
        0 <= i < st.units.len() <= usize::MAX,
        of_the_line(d, st.units, st.garrison, i),
    ensures
        ({
            let posts = observers_of(d, st);
            let line = st.units.filter(
                |u: BattalionUnit|
                    u.side == d.side && (d.only_undeployed ==> u.undeployed) && u.state == UnitState::Active && u.fit
                        && u.attack_range <= 1 && !u.kind.hq && !u.kind.anti_air && !st.garrison.contains(u.id),
            ).len();
            &&& posts.len() <= line && (line < 16 ==> posts.len() <= 1) && (line >= 8 ==> posts.len() <= line / 8)
            &&& posts.len() >= 1
            &&& 0 <= x < posts.len() ==> posts[x] < st.units.len() && of_the_line(d, st.units, st.garrison, posts[x] as int)
            &&& 0 <= x < posts.len() && !posts.contains(i as usize) ==> st.units[posts[x] as int].org_ratio
                <= st.units[i].org_ratio
            &&& 0 <= x < y < posts.len() ==> st.units[posts[x] as int].org_ratio <= st.units[posts[y] as int].org_ratio
            &&& !posts.contains(i as usize) ==> posts.len() == if line < 16 {
                1
            } else {
                line as int / 8
            }
        }),
{
    let all = indices(st.units.len());
    let ok = line_candidate(d, st.units, st.garrison);
    law_those_where(all, ok);
    crate::firing::lemma_filter_of_indices(st.units.len(), ok);
    let pool = those_where(all, ok);
    let s = weakest_first(st.units, pool);
    let posts = observers_of(d, st);
    let f = of_whole_line(d, st.garrison);
    let h = |u: BattalionUnit|
        u.side == d.side && (d.only_undeployed ==> u.undeployed) && u.state == UnitState::Active && u.fit && u.attack_range
            <= 1 && !u.kind.hq && !u.kind.anti_air && !st.garrison.contains(u.id);
    assert(f =~= h);
    law_matches_keep_their_order(st.units, h);
    crate::pick::law_count_is_positive(st.units, f);
    assert(f(st.units[i]));
    assert(all[i] == i as usize);
    assert(pool.contains(i as usize));
    let k = choose|k: int| 0 <= k < pool.len() && pool[k] == i as usize;
    law_the_weakest_come_first(st.units, pool, 0, 0, k);
    if 0 <= x < y < posts.len() {
        law_the_weakest_come_first(st.units, pool, x, y, 0);
        assert(posts[x] == s[x] && posts[y] == s[y]);
    }
    let y = choose|y: int| 0 <= y < s.len() && s[y] == i as usize;
    if 0 <= x < posts.len() {
        assert(posts[x] == s[x]);
        law_the_weakest_come_first(st.units, pool, 0, 0, x);
        assert(pool.contains(s[x]));
        assert(ok(s[x]));
        let z = choose|z: int| 0 <= z < all.len() && all[z] == s[x];
        if !posts.contains(i as usize) {
            assert(y >= posts.len()) by {
                if y < posts.len() {
                    assert(posts[y] == i as usize);
                }
            }
            law_the_weakest_come_first(st.units, pool, x, y, 0);
        }
    }
    if !posts.contains(i as usize) {
        assert(y >= posts.len()) by {
            if y < posts.len() {
                assert(posts[y] == i as usize);
            }
        }
    }
}

/// Only a defender posts observers.
pub proof fn law_attackers_post_no_observers(d: &Deployment, b: &DeployBook, st: DeployView, f: Formation)
    ensures
        d.side == Side::Attacker ==> observed(d, b, st, f) == Ok::<DeployView, Asked>(st),
        d.side == Side::Defender ==> observed(d, b, st, f) == observers_upto(
            d,
            b,
            st,
            f.shape,
            observers_of(d, st),
            observers_of(d, st).len(),
        ),
{
}

/// How far behind the line each kind of support stands: flak three hexes, anti-tank
/// guns two, and artillery half its range but at least one and at most four.
pub proof fn law_support_stands_behind_the_line(u: BattalionUnit)
    ensures
        u.kind.anti_air ==> standoff(u) == 3,
        !u.kind.anti_air && u.kind.anti_tank ==> standoff(u) == 2,
        !u.kind.anti_air && !u.kind.anti_tank ==> {
            &&& 1 <= standoff(u) <= 4
            &&& 2 <= u.attack_range <= 9 ==> 2 * standoff(u) <= u.attack_range < 2 * standoff(u) + 2
            &&& u.attack_range < 2 ==> standoff(u) == 1
            &&& u.attack_range > 9 ==> standoff(u) == 4
        },
{
}

/// What support stands behind: the line of its division where any of that is placed,
/// else all of the line, else a defender's city.
pub proof fn law_support_stands_behind_its_own(d: &Deployment, st: DeployView, division: usize)
    ensures
        ({
            let own = st.placed.filter(|e: (usize, HexCoord)| e.0 == division).map_values(|e: (usize, HexCoord)| e.1);
            let all = st.placed.map_values(|e: (usize, HexCoord)| e.1);
            let r = support_reference(d, st, division);
            &&& division != 0 && own.len() > 0 ==> r == own && own_line(st, division) == own
            &&& (division == 0 || own.len() == 0) && all.len() > 0 ==> r == all
            &&& all.len() == 0 && d.side == Side::Attacker ==> r.len() == 0
            &&& all.len() == 0 && d.side == Side::Defender ==> r == d.zone@.filter(
                |h: HexCoord| d.grid.on_map(h) && d.grid.content(h).urban,
            )
            &&& division == 0 ==> own_line(st, division) == all
        }),
{
    let f = of_division(division);
    assert(f =~= (|e: (usize, HexCoord)| e.0 == division));
    law_matches_keep_their_order(st.placed, f);
    let u = crate::deploy::urban_in(d);
    assert(u =~= (|h: HexCoord| d.grid.on_map(h) && d.grid.content(h).urban));
    law_matches_keep_their_order(d.zone@, u);
    if st.placed.len() == 0 {
        law_those_where(st.placed, f);
    }
}

/// Support aims at the average distance of what it stands behind, and so many hexes
/// more; with nothing to stand behind, from the front rank.
pub proof fn law_support_aims_behind_the_average(d: &Deployment, st: DeployView, f: Formation, u: BattalionUnit, h: HexCoord, s: Seq<HexCoord>)
    ensures
        ({
            let r = support_reference(d, st, u.division);
            let t = support_target(d, st, f, u);
            &&& r.len() > 0 ==> t.sum == front_sum(d, r) as i128 && t.count == r.len() as i128
            &&& r.len() == 0 ==> t.sum == band_base(d, f) as i128 && t.count == 2
            &&& t.offset == standoff(u) as i128
        }),
        front_sum(d, Seq::empty()) == 0,
        front_sum(d, s.push(h)) == front_sum(d, s) + front_of(d, h),
{
    assert(s.push(h).drop_last() =~= s);
}

/// A defender's guns cluster behind their line, if there is one; all others take
/// their equal share of the sector.
pub proof fn law_defending_guns_cluster(d: &Deployment, st: DeployView, u: BattalionUnit, index: nat)
    ensures
        d.side == Side::Defender && own_line(st, u.division).len() > 0 ==> support_slot(d, st, u, index) == (Slot::Cluster {
            index: index as usize,
        }),
        d.side == Side::Attacker || own_line(st, u.division).len() == 0 ==> {
            let all = st.units.filter(
                |o: BattalionUnit|
                    o.side == d.side && (d.only_undeployed ==> o.undeployed) && o.state == UnitState::Active && o.fit && (
                    o.attack_range > 1 || o.kind.anti_air) && !o.kind.hq && !st.garrison.contains(o.id) && o.division
                        == u.division,
            ).len();
            support_slot(d, st, u, index) == (Slot::Even {
                index: index as usize,
                of: if all == 0 {
                    1
                } else {
                    all as usize
                },
            })
        },
{
    let h = |o: BattalionUnit|
        o.side == d.side && (d.only_undeployed ==> o.undeployed) && o.state == UnitState::Active && o.fit && (o.attack_range
            > 1 || o.kind.anti_air) && !o.kind.hq && !st.garrison.contains(o.id) && o.division == u.division;
    assert(counted_support(d, st.garrison, u.division) =~= h);
    law_matches_keep_their_order(st.units, h);
}

/// A gun takes a site in its band, bounded unless the line is loose, and only where
/// that has no room any in its sector.
pub proof fn law_guns_keep_to_their_band(d: &Deployment, b: &DeployBook, st: DeployView, f: Formation, who: usize, index: nat)
    ensures
        ({
            let u = st.units[who as int];
            let sector = sector_of(d, st.units, st.garrison, f.shape, u.division, false);
            let target = support_target(d, st, f, u);
            let slot = support_slot(d, st, u, index);
            let banded = best_site(
                d,
                b,
                st.used,
                Search::Band { who, sector, target, bounded: !f.loose, slot },
            );
            &&& banded matches Ok(Some(h)) ==> support_site(d, b, st, f, who, index) == banded
            &&& banded == Ok::<Option<HexCoord>, Search>(None) ==> support_site(d, b, st, f, who, index) == best_site(
                d,
                b,
                st.used,
                Search::Ground { who, sector, target, slot },
            )
        }),
{
}

/// A headquarters makes for the middle of its division's battalions that stand on the
/// map, to the nearest hex: twice the distance of each coordinate from the average is
/// no more than one, and a half goes away from zero.
#[verifier::rlimit(40)]
pub proof fn law_headquarters_stand_amid_their_division(d: &Deployment, units: Seq<BattalionUnit>, division: usize, u: BattalionUnit, s: Seq<BattalionUnit>)
    ensures
        ({
            let members = units.filter(
                |o: BattalionUnit|
                    o.side == d.side && o.division == division && !o.kind.hq && !(o.position.q == i32::MIN && o.position.r
                        == i32::MIN),
            );
            let n = members.len() as int;
            let (q, r) = place_sum(members);
            &&& n == 0 <==> command_anchor(d, units, division) is None
            &&& n > 0 ==> (command_anchor(d, units, division) matches Some(h) && h.q == rounded(q, n) as i32 && h.r == rounded(
                r,
                n,
            ) as i32 && nearest_whole(q, n, rounded(q, n)) && nearest_whole(r, n, rounded(r, n)))
        }),
        place_sum(s.push(u)) == (place_sum(s).0 + u.position.q, place_sum(s).1 + u.position.r),
        place_sum(Seq::empty()) == (0int, 0int),
{
    assert(s.push(u).drop_last() =~= s);
    let f = commanded(d, division);
    let g = |o: BattalionUnit|
        o.side == d.side && o.division == division && !o.kind.hq && !(o.position.q == i32::MIN && o.position.r == i32::MIN);
    assert forall|o: BattalionUnit| f(o) == #[trigger] g(o) by {
        assert(o.position == crate::unit::offboard_hex() <==> (o.position.q == i32::MIN && o.position.r == i32::MIN));
    }
    assert(f =~= g);
    law_matches_keep_their_order(units, g);
    let members = units.filter(g);
    let n = members.len() as int;
    if n > 0 {
        lemma_rounded(place_sum(members).0, n);
        lemma_rounded(place_sum(members).1, n);
    }
}

/// The whole number is nearest to a fraction; of two equally near the one farther from
/// zero.
pub open spec fn nearest_whole(sum: int, n: int, x: int) -> bool {
    let off = 2 * (x * n - sum);
    if sum >= 0 {
        -n < off <= n
    } else {
        -n <= off < n
    }
}

proof fn lemma_rounded(sum: int, n: int)
    requires
        n > 0,
    ensures
        nearest_whole(sum, n, rounded(sum, n)),
{
    let top = if sum >= 0 {
        2 * sum + n
    } else {
        2 * (-sum) + n
    };
    let x = top / (2 * n);
    vstd::arithmetic::div_mod::lemma_fundamental_div_mod(top, 2 * n);
    vstd::arithmetic::div_mod::lemma_mod_bound(top, 2 * n);
    assert(2 * n * x == 2 * (x * n)) by (nonlinear_arith);
    assert((-x) * n == -(x * n)) by (nonlinear_arith);
}

/// A headquarters looks for a post behind that middle, whatever else.
pub proof fn law_headquarters_look_for_the_rear(d: &Deployment, b: &DeployBook, st: DeployView, hqs: Seq<usize>, n: nat)
    requires
        n < hqs.len(),
    ensures
        hqs_upto(d, b, st, hqs, n + 1) matches Ok(now) ==> (hqs_upto(d, b, st, hqs, n) matches Ok(was) && {
            let i = hqs[n as int] as int;
            let anchor = command_anchor(d, was.units, was.units[i].division);
            match best_site(d, b, was.used, Search::Rear { anchor }) {
                Ok(Some(h)) => now.units == was.units.update(i, BattalionUnit { position: h, ..was.units[i] }) && now.used
                    == was.used.push(h),
                Ok(None) => now == was,
                Err(_) => false,
            }
        }),
{
}

/// Each battalion of the garrison, of the line, each observer and each gun is put, one
/// after the other, on the site that is picked for it as the field then stands, and
/// its hex is taken from then on; whoever finds none stays.
#[verifier::rlimit(40)]
#[verifier::spinoff_prover]
pub proof fn law_each_takes_the_site_picked_for_it(d: &Deployment, b: &DeployBook, st: DeployView, f: Formation, s: Seq<usize>, n: nat)
    requires
        n < s.len(),
    ensures
        garrison_upto(d, b, st, s, n + 1) matches Ok(now) ==> (garrison_upto(d, b, st, s, n) matches Ok(was) && settles(
            was,
            now,
            s[n as int] as int,
            best_site(d, b, was.used, Search::Garrison { who: s[n as int] }),
        ) && (best_site(d, b, was.used, Search::Garrison { who: s[n as int] }) matches Ok(Some(h)) ==> now.garrison
            == was.garrison.push(was.units[s[n as int] as int].id))),
        line_upto(d, b, st, f, s, n + 1) matches Ok(now) ==> (line_upto(d, b, st, f, s, n) matches Ok(was) && settles(
            was,
            now,
            s[n as int] as int,
            best_site(d, b, was.used, line_search(d, was, f, s, n as int)),
        ) && (best_site(d, b, was.used, line_search(d, was, f, s, n as int)) matches Ok(Some(h)) ==> now.placed
            == was.placed.push((was.units[s[n as int] as int].division, h)))),
        observers_upto(d, b, st, f.shape, s, n + 1) matches Ok(now) ==> (observers_upto(d, b, st, f.shape, s, n) matches Ok(
            was,
        ) && settles(
            was,
            now,
            s[n as int] as int,
            best_site(
                d,
                b,
                was.used,
                Search::Crest {
                    sector: sector_of(d, was.units, was.garrison, f.shape, was.units[s[n as int] as int].division, true),
                    near: was.units[s[n as int] as int].position,
                },
            ),
        )),
        support_upto(d, b, st, f, s, n + 1) matches Ok(now) ==> (support_upto(d, b, st, f, s, n) matches Ok(was) && settles(
            was,
            now,
            s[n as int] as int,
            support_site(
                d,
                b,
                was,
                f,
                s[n as int],
                s.take(n as int).filter(
                    |i: usize| was.units[i as int].division == was.units[s[n as int] as int].division,
                ).len(),
            ),
        )),
{
    if let Ok(was) = support_upto(d, b, st, f, s, n) {
        let division = was.units[s[n as int] as int].division;
        let g = |i: usize| was.units[i as int].division == was.units[s[n as int] as int].division;
        assert(in_same_division(was.units, division) =~= g);
        law_matches_keep_their_order(s.take(n as int), g);
    }
}

/// The battalion ends on the hex that was found and that is taken now, or nothing
/// changes where none was found.
pub open spec fn settles(was: DeployView, now: DeployView, i: int, found: Result<Option<HexCoord>, Search>) -> bool {
    match found {
        Ok(Some(h)) => {
            &&& now.units == was.units.update(i, BattalionUnit { position: h, ..was.units[i] })
            &&& now.used == was.used.push(h)
        },
        Ok(None) => now == was,
        Err(_) => false,
    }
}

/// A deployment garrisons the city first, then forms the line, posts observers, places
/// the guns and last the headquarters.
#[verifier::rlimit(40)]
pub proof fn law_passes_follow_one_another(d: &Deployment, b: &DeployBook, units: Seq<BattalionUnit>, pre_used: Seq<HexCoord>)
    requires
        d.zone@.len() > 0 && d.enemy_zone@.len() > 0,
    ensures
        deployed(d, b, units, pre_used) matches Ok(s) ==> {
            let f = formation_of(d.side == Side::Defender, d.tactic);
            let start = DeployView { units, used: pre_used, garrison: Seq::empty(), placed: Seq::empty() };
            exists|s1: DeployView, s2: DeployView, s3: DeployView, s4: DeployView|
                #![trigger lined_up(d, b, s1, f), observed(d, b, s2, f), supported(d, b, s3, f), headed(d, b, s4)]
                {
                    &&& garrison_upto(d, b, start, garrison_of(d, units), garrison_of(d, units).len()) == Ok::<
                        DeployView,
                        Asked,
                    >(s1)
                    &&& lined_up(d, b, s1, f) == Ok::<DeployView, Asked>(s2) && line_upto(
                        d,
                        b,
                        s1,
                        f,
                        line_order(d, s1, f),
                        line_order(d, s1, f).len(),
                    ) == Ok::<DeployView, Asked>(s2)
                    &&& observed(d, b, s2, f) == Ok::<DeployView, Asked>(s3)
                    &&& supported(d, b, s3, f) == Ok::<DeployView, Asked>(s4)
                    &&& headed(d, b, s4) == Ok::<DeployView, Asked>(s) && hqs_upto(
                        d,
                        b,
                        s4,
                        hqs_of(d, s4.units),
                        hqs_of(d, s4.units).len(),
                    ) == Ok::<DeployView, Asked>(s)
                }
        },
{
    let f = formation_of(d.side == Side::Defender, d.tactic);
    let start = DeployView { units, used: pre_used, garrison: Seq::empty(), placed: Seq::empty() };
    if let Ok(s) = deployed(d, b, units, pre_used) {
        let s1 = garrisoned(d, b, start)->Ok_0;
        let s2 = lined_up(d, b, s1, f)->Ok_0;
        let s3 = observed(d, b, s2, f)->Ok_0;
        let s4 = supported(d, b, s3, f)->Ok_0;
        assert(headed(d, b, s4) == Ok::<DeployView, Asked>(s));
    }
}

/// The divisions along the front: those that are named, each once and only if it has
/// a battalion there; else the one that is placed; else those of the battalions.
pub proof fn law_divisions_stand_as_they_are_named(d: &Deployment, units: Seq<BattalionUnit>, division: usize, j: int, n: nat)
    ensures
        d.sector_divisions is None && d.only_division is Some ==> divisions_of(d, units) == seq![d.only_division->0],
        d.sector_divisions is None && d.only_division is None ==> (divisions_of(d, units).contains(division) <==> division
            != 0 && exists|i: int| 0 <= i < units.len() && #[trigger] on_the_front(d, units, i, division)),
        d.sector_divisions matches Some(list) ==> (divisions_of(d, units).contains(division) <==> list@.contains(division)
            && exists|i: int| 0 <= i < units.len() && #[trigger] on_the_front(d, units, i, division)),
{
    lemma_roster(d, units, units.len(), division);
    if let Some(list) = d.sector_divisions {
        lemma_listed(d, units, list@, list@.len(), division);
        assert(list@.take(list@.len() as int) =~= list@);
    }
}

/// Battalion `i` of a division takes part of the front: it is of the side, waits if
/// only such are placed, fights and is no headquarters.
pub open spec fn on_the_front(d: &Deployment, units: Seq<BattalionUnit>, i: int, division: usize) -> bool {
    let u = units[i];
    &&& u.side == d.side && (d.only_undeployed ==> u.undeployed)
    &&& u.state == UnitState::Active && u.fit && !u.kind.hq && u.division == division
}

proof fn lemma_roster(d: &Deployment, units: Seq<BattalionUnit>, n: nat, division: usize)
    requires
        n <= units.len(),
    ensures
        roster_upto(d, units, n).contains(division) <==> division != 0 && exists|i: int|
            0 <= i < n && #[trigger] on_the_front(d, units, i, division),
    decreases n,
{
    if n > 0 {
        let m = (n - 1) as nat;
        lemma_roster(d, units, m, division);
        let rest = roster_upto(d, units, m);
        let s = roster_upto(d, units, n);
        if rest.contains(division) {
            let k = choose|k: int| 0 <= k < rest.len() && rest[k] == division;
            assert(s[k] == division);
        }
        if s.contains(division) && !rest.contains(division) {
            let k = choose|k: int| 0 <= k < s.len() && s[k] == division;
            if k < rest.len() {
                assert(rest[k] == division);
            }
            assert(on_the_front(d, units, m as int, division));
        }
        if division != 0 && on_the_front(d, units, m as int, division) && !rest.contains(division) {
            assert(s[s.len() - 1] == division);
        }
    }
}

#[verifier::rlimit(40)]
#[verifier::spinoff_prover]
proof fn lemma_listed(d: &Deployment, units: Seq<BattalionUnit>, list: Seq<usize>, n: nat, division: usize)
    requires
        n <= list.len(),
    ensures
        listed_upto(d, units, list, n).contains(division) <==> list.take(n as int).contains(division) && exists|i: int|
            0 <= i < units.len() && #[trigger] on_the_front(d, units, i, division),
    decreases n,
{
    let part = list.take(n as int);
    if n > 0 {
        let m = (n - 1) as nat;
        lemma_listed(d, units, list, m, division);
        let before = list.take(m as int);
        let rest = listed_upto(d, units, list, m);
        let s = listed_upto(d, units, list, n);
        assert(crate::deploy::has_battalion(d, units, division) <==> exists|i: int|
            0 <= i < units.len() && #[trigger] on_the_front(d, units, i, division)) by {
            if crate::deploy::has_battalion(d, units, division) {
                let i = choose|i: int|
                    0 <= i < units.len() && crate::deploy::placeable(d, #[trigger] units[i]) && units[i].effective()
                        && !units[i].kind.hq && units[i].division == division;
                assert(on_the_front(d, units, i, division));
            }
        }
        if rest.contains(division) {
            let k = choose|k: int| 0 <= k < rest.len() && rest[k] == division;
            assert(s[k] == division);
        }
        if before.contains(division) {
            let k = choose|k: int| 0 <= k < before.len() && before[k] == division;
            assert(part[k] == division);
        }
        if part.contains(division) && !before.contains(division) {
            let k = choose|k: int| 0 <= k < part.len() && part[k] == division;
            if k < m {
                assert(before[k] == division);
            }
            assert(list[m as int] == division);
            if crate::deploy::has_battalion(d, units, division) {
                assert(s[s.len() - 1] == division);
            }
        }
        if s.contains(division) && !rest.contains(division) {
            let k = choose|k: int| 0 <= k < s.len() && s[k] == division;
            if k < rest.len() {
                assert(rest[k] == division);
            }
            assert(part[m as int] == division);
        }
    } else {
        assert(part =~= Seq::<usize>::empty());
    }
}

/// The strength of a division on the front is the number of its battalions that take
/// part of it and are not of the garrison; those before it come before it.
pub proof fn law_a_division_has_the_front_of_its_battalions(
    d: &Deployment,
    units: Seq<BattalionUnit>,
    garrison: Seq<usize>,
    divisions: Seq<usize>,
    n: nat,
)
    requires
        n < divisions.len(),
    ensures
        strength_upto(d, units, garrison, divisions, 0) == 0,
        strength_upto(d, units, garrison, divisions, n + 1) == strength_upto(d, units, garrison, divisions, n)
            + units.filter(
            |u: BattalionUnit|
                u.side == d.side && (d.only_undeployed ==> u.undeployed) && u.state == UnitState::Active && u.fit && !u.kind.hq
                    && !garrison.contains(u.id) && u.division == divisions[n as int],
        ).len(),
{
    let h = |u: BattalionUnit|
        u.side == d.side && (d.only_undeployed ==> u.undeployed) && u.state == UnitState::Active && u.fit && !u.kind.hq
            && !garrison.contains(u.id) && u.division == divisions[n as int];
    assert(counted(d, garrison, divisions[n as int]) =~= h);
    law_matches_keep_their_order(units, h);
}

/// Of two wings the first is for the divisions before which less than half of all
/// battalions stand, and always for the first; whoever has no division on the front
/// has all that the formation covers, and of two wings the whole front or, to observe,
/// the first wing.
pub proof fn law_wings_share_the_divisions(d: &Deployment, units: Seq<BattalionUnit>, garrison: Seq<usize>, width: i64, k: int, observer: bool)
    requires
        0 <= k < divisions_of(d, units).len(),
        forall|j: int| 0 <= j < k ==> (#[trigger] divisions_of(d, units)[j]) != divisions_of(d, units)[k],
        count_where(units, counted(d, garrison, divisions_of(d, units)[k])) > 0,
    ensures
        ({
            let divisions = divisions_of(d, units);
            let before = strength_upto(d, units, garrison, divisions, k as nat);
            let total = strength_upto(d, units, garrison, divisions, divisions.len());
            let s = sector_of(d, units, garrison, Shape::TwoWings(width), divisions[k], observer);
            &&& s.wing == Wing::Left <==> before == 0 || before < total / 2
            &&& s.wing == Wing::Left || s.wing == Wing::Right
            &&& s.from == 0 && s.to == 1 && s.of == 1
        }),
{
    let divisions = divisions_of(d, units);
    law_first_where(divisions, crate::deploy::is_division(divisions[k]));
    assert(crate::deploy::is_division(divisions[k])(divisions[k]));
}

/// Where a battalion of no division on the front looks.
pub proof fn law_strays_have_the_whole_front(d: &Deployment, units: Seq<BattalionUnit>, garrison: Seq<usize>, shape: Shape, division: usize, observer: bool)
    requires
        !divisions_of(d, units).contains(division) || count_where(units, counted(d, garrison, division)) == 0,
    ensures
        ({
            let s = sector_of(d, units, garrison, shape, division, observer);
            &&& s.from == 0 && s.to == 1 && s.of == 1
            &&& !(shape is TwoWings) ==> s.wing == Wing::Covered
            &&& shape is TwoWings && observer ==> s.wing == Wing::Left
            &&& shape is TwoWings && !observer ==> s.wing == Wing::Whole
        }),
{
    let divisions = divisions_of(d, units);
    law_first_where(divisions, crate::deploy::is_division(division));
    if let Some(k) = first_where(divisions, crate::deploy::is_division(division)) {
        assert(divisions.contains(divisions[k]));
    }
}

/// Which cards stand where: the front rank of an attack is three and a half hexes off,
/// that of a defence three, and one hex more for an infiltration, an ambush and
/// guerrillas, who also stand loosely in a single line, as a charge does closely.
pub proof fn law_the_bands_of_the_cards(card: CombatTactic)
    ensures
        formation_of(false, card).band == if card == CombatTactic::InfiltrationAssault {
            9int
        } else {
            7
        },
        formation_of(true, card).band == if card == CombatTactic::Ambush || card == CombatTactic::GuerrillaTactics {
            8int
        } else {
            6
        },
        formation_of(false, card).loose <==> card == CombatTactic::InfiltrationAssault,
        formation_of(true, card).loose <==> card == CombatTactic::Ambush || card == CombatTactic::GuerrillaTactics,
        formation_of(false, card).echelons.len() == 1 <==> card == CombatTactic::MassCharge || card
            == CombatTactic::InfiltrationAssault,
        formation_of(true, card).echelons.len() == 1 <==> card == CombatTactic::Ambush || card
            == CombatTactic::GuerrillaTactics,
        formation_of(true, card).echelons.len() == 3 <==> card == CombatTactic::TacticalWithdrawal,
        formation_of(false, card).echelons.len() <= 2,
        !formation_of(false, card).armor_reserve,
        formation_of(true, card).armor_reserve <==> card == CombatTactic::ElasticDefense || card
            == CombatTactic::Counterattack,
{
}

/// How wide the cards stand: only an attacking blitz masses on the middle seven
/// tenths, only an encirclement splits into wings, of three tenths in attack and
/// thirty-five hundredths in defence, and every other card takes the whole front.
pub proof fn law_the_shapes_of_the_cards(card: CombatTactic)
    ensures
        formation_of(false, card).shape == Shape::CenterFocus(70) <==> card == CombatTactic::Blitz,
        formation_of(false, card).shape == Shape::TwoWings(30) <==> card == CombatTactic::Encirclement,
        formation_of(false, card).shape == Shape::Full <==> card != CombatTactic::Blitz && card != CombatTactic::Encirclement,
        formation_of(true, card).shape == Shape::TwoWings(35) <==> card == CombatTactic::Encirclement,
        formation_of(true, card).shape == Shape::Full <==> card != CombatTactic::Encirclement,
{
}

/// How deep the cards stand: how much of a division is in the first line, and that each
/// line stands two hexes behind the one before it, in a withdrawal three.
#[verifier::rlimit(40)]
pub proof fn law_the_depth_of_the_cards(card: CombatTactic, k: int)
    ensures
        ({
            let e = formation_of(false, card).echelons;
            &&& e.len() == 2 ==> e[0].share == if card == CombatTactic::Blitz {
                60int
            } else if card == CombatTactic::Encirclement {
                80
            } else {
                75
            }
            &&& 0 <= k < e.len() ==> e[k].offset == 2 * k
        }),
        ({
            let e = formation_of(true, card).echelons;
            &&& e.len() == 2 ==> e[0].share == if card == CombatTactic::ElasticDefense {
                65int
            } else if card == CombatTactic::Counterattack {
                60
            } else if card == CombatTactic::Delay {
                50
            } else if card == CombatTactic::OverwhelmingFire {
                85
            } else if card == CombatTactic::Encirclement {
                75
            } else {
                70
            }
            &&& e.len() == 3 ==> e[0].share == 35 && e[1].share == 35 && e[2].share == 30
            &&& 0 <= k < e.len() ==> e[k].offset == if e.len() == 3 {
                3 * k
            } else {
                2 * k
            }
        }),
{
}

/// What makes ground good. An ambush lurks and a river defence keeps to the river only
/// in defence; a city counts only in defence; a river between a hex and the enemy
/// shields it; and a hex is in defilade if the one before it stands higher.
#[verifier::rlimit(40)]
pub proof fn law_what_makes_ground_good(g: &HexGrid, defending: bool, card: CombatTactic, h: HexCoord, line: Seq<HexCoord>, toward: Option<HexCoord>)
    ensures
        ({
            let t = ground_of(g, defending, card, h, line, toward);
            &&& t.lurk <==> defending && card == CombatTactic::Ambush
            &&& t.city <==> defending && g.on_map(h) && g.content(h).urban
            &&& t.shield <==> exists|k: int|
                0 <= k < line.len() && #[trigger] g.on_map(line[k]) && g.content(line[k]).river
            &&& t.double_shield <==> defending && card == CombatTactic::RiverDefense
            &&& t.bank ==> t.double_shield && exists|k: int|
                0 <= k < g.around(h).len() && #[trigger] g.on_map(g.around(h)[k]) && g.content(g.around(h)[k]).river
            &&& t.double_shield && (exists|k: int|
                0 <= k < g.around(h).len() && #[trigger] g.on_map(g.around(h)[k]) && g.content(g.around(h)[k]).river)
                ==> t.bank
            &&& t.defilade <==> (toward matches Some(s) && height_at(g, s) > height_at(g, h))
        }),
        height_at(g, h) == if g.on_map(h) {
            g.content(h).elevation as int
        } else {
            0
        },
{
    if crosses_river(g, line) {
        let k = choose|k: int| 0 <= k < line.len() && g.river_at(#[trigger] line[k]);
        assert(g.on_map(line[k]));
    }
    if exists|k: int| 0 <= k < line.len() && #[trigger] g.on_map(line[k]) && g.content(line[k]).river {
        let k = choose|k: int| 0 <= k < line.len() && #[trigger] g.on_map(line[k]) && g.content(line[k]).river;
        assert(g.river_at(line[k]));
    }
    if on_bank(g, h) {
        let k = choose|k: int| 0 <= k < g.around(h).len() && g.river_at(#[trigger] g.around(h)[k]);
        assert(g.on_map(g.around(h)[k]));
    }
    if exists|k: int| 0 <= k < g.around(h).len() && #[trigger] g.on_map(g.around(h)[k]) && g.content(g.around(h)[k]).river {
        let k = choose|k: int|
            0 <= k < g.around(h).len() && #[trigger] g.on_map(g.around(h)[k]) && g.content(g.around(h)[k]).river;
        assert(g.river_at(g.around(h)[k]));
    }
}

/// A hex is a crest exactly if it rises above the field, the enemy is not next to it
/// and each of the four nearest hexes towards the enemy stands lower.
pub proof fn law_a_crest_looks_down(g: &HexGrid, h: HexCoord, line: Seq<HexCoord>)
    ensures
        is_crest(g, h, line) ==> height_at(g, h) > 0 && line.len() > 0,
        is_crest(g, h, line) ==> forall|k: int|
            0 <= k < line.len() && k < 4 ==> height_at(g, h) > height_at(g, #[trigger] line[k]),
        height_at(g, h) > 0 && line.len() > 0 && (forall|k: int|
            0 <= k < line.len() && k < 4 ==> height_at(g, h) > height_at(g, #[trigger] line[k])) ==> is_crest(g, h, line),
{
}

/// Divisions stand along the front in the order in which they are named or, where none
/// are named, in which their first battalions are listed.
pub proof fn law_divisions_keep_their_order(d: &Deployment, units: Seq<BattalionUnit>, list: Seq<usize>, n: nat)
    ensures
        roster_upto(d, units, 0).len() == 0 && listed_upto(d, units, list, 0).len() == 0,
        roster_upto(d, units, n + 1) == roster_upto(d, units, n) || roster_upto(d, units, n + 1) == roster_upto(
            d,
            units,
            n,
        ).push(units[n as int].division),
        listed_upto(d, units, list, n + 1) == listed_upto(d, units, list, n) || listed_upto(d, units, list, n + 1)
            == listed_upto(d, units, list, n).push(list[n as int]),
        d.sector_divisions is None && d.only_division is None ==> divisions_of(d, units) == roster_upto(d, units, units.len()),
        d.sector_divisions matches Some(named) ==> divisions_of(d, units) == listed_upto(d, units, named@, named@.len()),
{
}

/// A battalion of the garrison goes to a free city hex than which no other free one
/// scores lower.
pub proof fn law_the_garrison_takes_the_best_city_hex(d: &Deployment, b: &DeployBook, used: Seq<HexCoord>, who: usize, rows: Seq<SiteRow>, j: int)
    requires
        rows_of(d, b, Search::Garrison { who }) == Some(rows),
        0 <= j < d.zone@.len(),
        !used.contains(d.zone@[j]) && d.grid.on_map(d.zone@[j]) && d.grid.content(d.zone@[j]).urban,
    ensures
        exists|i: int|
            0 <= i < d.zone@.len() && best_site(d, b, used, Search::Garrison { who }) == Ok::<Option<HexCoord>, Search>(
                Some(#[trigger] d.zone@[i]),
            ) && !used.contains(d.zone@[i]) && d.grid.on_map(d.zone@[i]) && d.grid.content(d.zone@[i]).urban && score_of(
                rows[i],
                used,
                d.zone@[i],
            ) <= score_of(rows[j], used, d.zone@[j]),
{
    let i = law_the_best_open_site_is_picked(d, b, used, Search::Garrison { who }, j);
}

/// A battalion of the line takes a free hex of its sector and band than which no other
/// such scores higher.
pub proof fn law_the_line_takes_the_best_ground(
    d: &Deployment,
    b: &DeployBook,
    used: Seq<HexCoord>,
    who: usize,
    sector: Sector,
    target: Target,
    bounded: bool,
    slot: Slot,
    rows: Seq<SiteRow>,
    j: int,
)
    requires
        rows_of(d, b, Search::Band { who, sector, target, bounded, slot }) == Some(rows),
        0 <= j < d.zone@.len(),
        !used.contains(d.zone@[j]) && rows[j].inside && in_band(front_of(d, d.zone@[j]), target, bounded),
    ensures
        exists|i: int|
            0 <= i < d.zone@.len() && best_site(d, b, used, Search::Band { who, sector, target, bounded, slot }) == Ok::<
                Option<HexCoord>,
                Search,
            >(Some(#[trigger] d.zone@[i])) && !used.contains(d.zone@[i]) && rows[i].inside && in_band(
                front_of(d, d.zone@[i]),
                target,
                bounded,
            ) && score_of(rows[i], used, d.zone@[i]) >= score_of(rows[j], used, d.zone@[j]) && (score_of(
                rows[i],
                used,
                d.zone@[i],
            ) == score_of(rows[j], used, d.zone@[j]) ==> rows[i].near <= rows[j].near),
{
    let i = law_the_best_open_site_is_picked(d, b, used, Search::Band { who, sector, target, bounded, slot }, j);
}

/// A headquarters takes a free hex within two of its division's middle where there
/// is one, and of those one than which none is farther from the front.
pub proof fn law_headquarters_take_the_deepest_post_on_the_leash(d: &Deployment, b: &DeployBook, used: Seq<HexCoord>, c: HexCoord, j: int)
    requires
        0 <= j < d.zone@.len(),
        !used.contains(d.zone@[j]) && hex_distance(c, d.zone@[j]) <= 2,
    ensures
        best_site(d, b, used, Search::Rear { anchor: Some(c) }) matches Ok(Some(h)) && d.zone@.contains(h) && !used.contains(h)
            && hex_distance(c, h) <= 2 && front_of(d, h) >= front_of(d, d.zone@[j]),
{
    let i = law_the_best_open_site_is_picked(d, b, used, Search::Rear { anchor: Some(c) }, j);
}

/// An observer takes a free crest of its sector than which none is nearer to it.
pub proof fn law_observers_take_the_nearest_crest(d: &Deployment, b: &DeployBook, used: Seq<HexCoord>, sector: Sector, near: HexCoord, rows: Seq<SiteRow>, j: int)
    requires
        rows_of(d, b, Search::Crest { sector, near }) == Some(rows),
        0 <= j < d.zone@.len(),
        !used.contains(d.zone@[j]) && rows[j].inside && is_crest(d.grid, d.zone@[j], d.sightlines@[j]@),
    ensures
        best_site(d, b, used, Search::Crest { sector, near }) matches Ok(Some(h)) && d.zone@.contains(h) && !used.contains(h)
            && hex_distance(near, h) <= hex_distance(near, d.zone@[j]),
{
    let i = law_the_best_open_site_is_picked(d, b, used, Search::Crest { sector, near }, j);
}

/// Who is placed with the garrison, the line, the guns and the headquarters: of the
/// side's battalions that fight and may be placed, those that reach one hex at most
/// form the line unless they are headquarters or flak, and may garrison unless they
/// are headquarters; those that reach farther, and flak, support; and nobody in the
/// garrison is placed again.
pub proof fn law_reach_decides_where_a_battalion_stands(d: &Deployment, units: Seq<BattalionUnit>, garrison: Seq<usize>, i: int)
    requires
        0 <= i < units.len() <= usize::MAX,
    ensures
        ({
            let u = units[i];
            let may = u.side == d.side && u.state == UnitState::Active && u.fit && (d.only_undeployed ==> u.undeployed) && (
            d.only_division is None || d.only_division == Some(u.division));
            let k = i as usize;
            &&& garrison_candidate(d, units)(k) <==> may && u.attack_range <= 1 && !u.kind.hq
            &&& line_candidate(d, units, garrison)(k) <==> may && u.attack_range <= 1 && !u.kind.hq && !u.kind.anti_air
                && !garrison.contains(u.id)
            &&& support_candidate(d, units, garrison)(k) <==> may && (u.attack_range > 1 || u.kind.anti_air)
                && !garrison.contains(u.id)
            &&& hq_candidate(d, units)(k) <==> may && u.kind.hq
        }),
{
}

/// The band of the line, whose front rank is reckoned in half hexes: from three half
/// hexes before it to twenty-three behind it or, unbounded, to any depth.
pub proof fn law_the_band_of_the_line_is_in_half_hexes(distance: int, target: Target, bounded: bool)
    requires
        target.count == 2,
    ensures
        in_band(distance, target, bounded) <==> {
            let behind = 2 * (distance - target.offset) - target.sum;
            behind >= -3 && (bounded ==> behind <= 23)
        },
{
    let c = target.count as int;
    let x = distance - target.offset;
    assert(2 * c * x == 4 * x) by (nonlinear_arith)
        requires
            c == 2,
    ;
}

} // verus!
