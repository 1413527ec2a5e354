//! What holds of every retreat.
use vstd::prelude::*;
use crate::combat::CombatEngine;
use crate::geometry::{bears, law_an_id_stands_for_its_first_bearer};
use crate::grid::{full_compass, law_exits_are_the_passable_neighbours, HexGrid};
use crate::hex::{hex_distance, HexCoord, HexDirection};
use crate::pick::{law_those_where, law_winner_is_the_first_least, law_winner_matches, winner};
use crate::retreat::{
    danger, eastern_rim, enemy_gap, exit_hexes, first_step, is_best_route, is_route, law_a_step_is_found_where_a_route_is, leads,
    least_gap, nearest_hex, on_rim, open_to, own_edge_gap, retreat_result, retreated, rim_of, rout_step, safer_step, vacant, WayOff,
};
use crate::unit::{BattalionUnit, Side, UnitState};

verus! {

/// How many columns or rows a hex of the map lies from the edge in a direction:
/// from column 0 in the west, the last column in the east, row 0 in the north and
/// the last row in the south.
pub open spec fn lines_from_edge(g: &HexGrid, d: HexDirection, h: HexCoord) -> int {
    if d == HexDirection::W {
        h.q as int
    } else if d == HexDirection::E {
        g.columns() - h.q - 1
    } else if d == HexDirection::NW || d == HexDirection::NE {
        h.r as int
    } else {
        g.rows() - h.r - 1
    }
}

proof fn lemma_least_gap(g: &HexGrid, dirs: Seq<HexDirection>, h: HexCoord)
    requires
        dirs.len() > 0,
    ensures
        least_gap(g, dirs, h) matches Some(m) && (forall|k: int|
            0 <= k < dirs.len() ==> m <= lines_from_edge(g, #[trigger] dirs[k], h)) && exists|k: int|
            0 <= k < dirs.len() && m == lines_from_edge(g, #[trigger] dirs[k], h),
    decreases dirs.len(),
{
    let t = dirs.drop_last();
    let last = dirs[dirs.len() - 1];
    assert(dirs.last() == last);
    if t.len() > 0 {
        lemma_least_gap(g, t, h);
        let m = least_gap(g, t, h)->0;
        let k = choose|k: int| 0 <= k < t.len() && m == lines_from_edge(g, #[trigger] t[k], h);
        assert(t[k] == dirs[k]);
        assert forall|j: int| 0 <= j < dirs.len() implies least_gap(g, dirs, h)->0 <= lines_from_edge(
            g,
            #[trigger] dirs[j],
            h,
        ) by {
            if j < t.len() {
                assert(t[j] == dirs[j]);
            }
        }
    } else {
        assert(least_gap(g, t, h) is None);
    }
}

/// An attacker's own edge is where it entered: on the map its distance is the least
/// number of columns or rows to one of the edges of entry, so it is none exactly on
/// the outermost column or row of such an edge. Without an entry it is column 0.
pub proof fn law_an_attacker_leaves_where_it_entered(g: &HexGrid, rim: Seq<HexCoord>, h: HexCoord)
    requires
        g.on_map(h),
    ensures
        ({
            let gap = own_edge_gap(g, Side::Attacker, rim, h);
            let entries = g.entries();
            &&& entries.len() == 0 ==> gap == h.q
            &&& entries.len() > 0 ==> {
                &&& forall|k: int| 0 <= k < entries.len() ==> gap <= lines_from_edge(g, #[trigger] entries[k], h)
                &&& exists|k: int| 0 <= k < entries.len() && gap == lines_from_edge(g, #[trigger] entries[k], h)
            }
            &&& entries.len() == 1 && entries[0] == HexDirection::W ==> gap == h.q
            &&& entries.len() == 1 && entries[0] == HexDirection::E ==> gap == g.columns() - 1 - h.q
            &&& entries.len() == 1 && (entries[0] == HexDirection::NW || entries[0] == HexDirection::NE) ==> gap == h.r
            &&& entries.len() == 1 && (entries[0] == HexDirection::SW || entries[0] == HexDirection::SE) ==> gap == g.rows() - 1
                - h.r
            &&& (exists|k: int| 0 <= k < entries.len() && #[trigger] entries[k] == HexDirection::W) ==> gap <= h.q
            &&& (exists|k: int| 0 <= k < entries.len() && #[trigger] entries[k] == HexDirection::E) ==> gap < g.columns() - h.q
            &&& gap == 0 && 0 < h.q && h.q + 1 < g.columns() ==> h.r == 0 || h.r + 1 == g.rows()
        }),
{
    if g.entries().len() > 0 {
        lemma_least_gap(g, g.entries(), h);
        let m = least_gap(g, g.entries(), h)->0;
        let k = choose|k: int| 0 <= k < g.entries().len() && m == lines_from_edge(g, #[trigger] g.entries()[k], h);
        assert(lines_from_edge(g, g.entries()[k], h) >= 0);
        assert(own_edge_gap(g, Side::Attacker, rim, h) == lines_from_edge(g, g.entries()[k], h));
    }
}

proof fn lemma_nearest_hex(s: Seq<HexCoord>, h: HexCoord)
    requires
        s.len() > 0,
    ensures
        nearest_hex(s, h) matches Some(m) && (forall|k: int| 0 <= k < s.len() ==> m <= hex_distance(h, #[trigger] s[k]))
            && exists|k: int| 0 <= k < s.len() && m == hex_distance(h, #[trigger] s[k]),
    decreases s.len(),
{
    let t = s.drop_last();
    let last = s[s.len() - 1];
    assert(s.last() == last);
    if t.len() > 0 {
        lemma_nearest_hex(t, h);
        let m = nearest_hex(t, h)->0;
        let k = choose|k: int| 0 <= k < t.len() && m == hex_distance(h, #[trigger] t[k]);
        assert(t[k] == s[k]);
        assert forall|j: int| 0 <= j < s.len() implies nearest_hex(s, h)->0 <= hex_distance(h, #[trigger] s[j]) by {
            if j < t.len() {
                assert(t[j] == s[j]);
            }
        }
    } else {
        assert(nearest_hex(t, h) is None);
    }
}

/// The nearest hex of a list is as near as one of them and no farther than any.
pub proof fn law_nearest_hex_is_nearest(s: Seq<HexCoord>, h: HexCoord)
    ensures
        nearest_hex(s, h) is None <==> s.len() == 0,
        nearest_hex(s, h) matches Some(m) ==> (forall|k: int|
            0 <= k < s.len() ==> m <= hex_distance(h, #[trigger] s[k])) && exists|k: int|
            0 <= k < s.len() && m == hex_distance(h, #[trigger] s[k]),
{
    if s.len() > 0 {
        lemma_nearest_hex(s, h);
    }
}

/// A defender's own edge is the rim of its zone, and without a rim the last column
/// of the map.
pub proof fn law_a_defender_leaves_by_its_rim(g: &HexGrid, rim: Seq<HexCoord>, h: HexCoord)
    requires
        g.on_map(h),
    ensures
        ({
            let gap = own_edge_gap(g, Side::Defender, rim, h);
            &&& rim.len() == 0 ==> gap == g.columns() - 1 - h.q
            &&& rim.len() > 0 ==> {
                &&& forall|k: int| 0 <= k < rim.len() ==> gap <= hex_distance(h, #[trigger] rim[k])
                &&& exists|k: int| 0 <= k < rim.len() && gap == hex_distance(h, #[trigger] rim[k])
                &&& gap == 0 <==> rim.contains(h)
            }
        }),
{
    if rim.len() > 0 {
        lemma_nearest_hex(rim, h);
        let m = nearest_hex(rim, h)->0;
        let k = choose|k: int| 0 <= k < rim.len() && m == hex_distance(h, #[trigger] rim[k]);
        assert(own_edge_gap(g, Side::Defender, rim, h) == hex_distance(h, rim[k]));
        if m == 0 {
            assert(rim[k] == h);
        }
        if rim.contains(h) {
            let j = choose|j: int| 0 <= j < rim.len() && rim[j] == h;
            assert(m <= hex_distance(h, rim[j]));
        }
    }
}

/// The eastern rim of a zone holds exactly those of its hexes whose eastern
/// neighbour is not in the zone.
pub proof fn law_the_rim_faces_east(zone: Seq<HexCoord>, h: HexCoord)
    ensures
        eastern_rim(zone).contains(h) <==> zone.contains(h) && (h.q == i32::MAX || !zone.contains(
            HexCoord { q: (h.q + 1) as i32, r: h.r },
        )),
{
    law_those_where(zone, |x: HexCoord| on_rim(zone, x));
    if h.q < i32::MAX {
        let e = HexCoord { q: (h.q + 1) as i32, r: h.r };
        if zone.contains(e) {
            assert(!on_rim(zone, h));
        }
    }
    if !on_rim(zone, h) {
        let e = choose|e: HexCoord| #[trigger] zone.contains(e) && e.q == h.q + 1 && e.r == h.r;
        assert(e == (HexCoord { q: (h.q + 1) as i32, r: h.r }));
    }
}

/// Where the battle has zones, defenders make for the rim of their own, the second.
pub proof fn law_the_rim_is_that_of_the_defenders_zone(zones: Option<(&[HexCoord], &[HexCoord])>, h: HexCoord)
    ensures
        match zones {
            Some((_, own)) => rim_of(zones).contains(h) <==> own@.contains(h) && (h.q == i32::MAX || !own@.contains(
                HexCoord { q: (h.q + 1) as i32, r: h.r },
            )),
            None => rim_of(zones).len() == 0,
        },
{
    if let Some((_, own)) = zones {
        law_the_rim_faces_east(own@, h);
    }
}

/// Nothing of another battalion that is left on the board stands on the hex.
pub open spec fn clear(units: Seq<BattalionUnit>, id: usize, h: HexCoord) -> bool {
    forall|j: int|
        0 <= j < units.len() && (#[trigger] units[j]).id != id && units[j].position == h && units[j].present
            ==> units[j].state == UnitState::Surrendered || units[j].state == UnitState::Eliminated || units[j].state
            == UnitState::LeftBattle
}

/// A way from a hex: step by step over passable hexes that are clear for the
/// battalion, never back over its start.
pub open spec fn clear_way(g: &HexGrid, units: Seq<BattalionUnit>, id: usize, start: HexCoord, p: Seq<HexCoord>) -> bool {
    &&& p.len() > 0
    &&& hex_distance(start, p[0]) == 1
    &&& forall|k: int|
        0 <= k < p.len() ==> (#[trigger] p[k]) != start && clear(units, id, p[k]) && g.on_map(p[k]) && g.content(
            p[k],
        ).passable
    &&& forall|k: int, l: int|
        0 <= k && l == k + 1 && l < p.len() ==> hex_distance(#[trigger] p[k], #[trigger] p[l]) == 1
}

/// A passable hex of the map outside the contested province.
pub open spec fn off_the_province(g: &HexGrid, h: HexCoord) -> bool {
    g.on_map(h) && g.content(h).passable && g.content(h).out_of_bounds
}

proof fn lemma_clear(units: Seq<BattalionUnit>, id: usize, h: HexCoord)
    ensures
        vacant(units, id, h) <==> clear(units, id, h),
{
    assert forall|j: int| 0 <= j < units.len() implies (#[trigger] units[j]).targetable() == (units[j].present && !(
    units[j].state == UnitState::Surrendered || units[j].state == UnitState::Eliminated || units[j].state
        == UnitState::LeftBattle)) by {}
    if vacant(units, id, h) {
        assert(clear(units, id, h));
    }
    if clear(units, id, h) {
        assert(vacant(units, id, h));
    }
}

proof fn lemma_way_is_route(g: &HexGrid, units: Seq<BattalionUnit>, id: usize, start: HexCoord, p: Seq<HexCoord>)
    requires
        full_compass(g.order()),
    ensures
        clear_way(g, units, id, start, p) <==> is_route(g, start, open_to(g, units, id), p),
{
    let free = open_to(g, units, id);
    if p.len() > 0 {
        law_exits_are_the_passable_neighbours(g, start, p[0]);
    }
    assert forall|k: int| 0 <= k < p.len() implies free(#[trigger] p[k]) == (clear(units, id, p[k]) && g.on_map(p[k])
        && g.content(p[k]).passable) by {
        lemma_clear(units, id, p[k]);
    }
    assert forall|k: int, l: int| 0 <= k && l == k + 1 && l < p.len() && free(p[l]) implies g.exits(
        #[trigger] p[k],
    ).contains(#[trigger] p[l]) == (hex_distance(p[k], p[l]) == 1) by {
        law_exits_are_the_passable_neighbours(g, p[k], p[l]);
    }
    if clear_way(g, units, id, start, p) {
        assert(is_route(g, start, free, p));
    }
    if is_route(g, start, free, p) {
        assert(free(p[0]));
        assert(clear_way(g, units, id, start, p));
    }
}

proof fn lemma_first_step_leads(g: &HexGrid, start: HexCoord, free: spec_fn(HexCoord) -> bool, goal: spec_fn(HexCoord) -> bool) -> (p: Seq<HexCoord>)
    ensures
        first_step(g, start, free, goal) matches Some(h) ==> is_best_route(g, start, free, goal, p) && p[0] == h,
{
    reveal(first_step);
    choose|p: Seq<HexCoord>| is_best_route(g, start, free, goal, p)
}

/// A rout that stands on a way off the battle holds its hex. Otherwise it takes the
/// first step of a shortest clear way out of the province, where there is a clear
/// way out at all; where there is none, that of a shortest clear way to its own
/// edge. Of equally short ways it takes one by the exit that is listed first. It
/// withdraws exactly if the step ends on its own edge.
#[verifier::rlimit(40)]
#[verifier::spinoff_prover]
pub proof fn law_a_rout_takes_the_shortest_way_off(
    g: &HexGrid,
    units: Seq<BattalionUnit>,
    i: int,
    rim: Seq<HexCoord>,
    p: Seq<HexCoord>,
) -> (q: Seq<HexCoord>)
    requires
        0 <= i < units.len(),
        full_compass(g.order()),
        units[i].targetable(),
    ensures
        ({
            let u = units[i];
            let there = |h: HexCoord| own_edge_gap(g, u.side, rim, h) == 0;
            let now = retreated(g, units, i, true, rim);
            let at_exit = off_the_province(g, u.position) || there(u.position);
            let out = clear_way(g, units, u.id, u.position, p) && off_the_province(g, p.last());
            let home = clear_way(g, units, u.id, u.position, p) && there(p.last());
            let no_way_out = forall|w: Seq<HexCoord>|
                #[trigger] clear_way(g, units, u.id, u.position, w) ==> !off_the_province(g, w.last());
            &&& at_exit ==> (now matches Some(v) && v.position == u.position)
            &&& !at_exit && out ==> (now matches Some(v) && clear_way(g, units, u.id, u.position, q) && off_the_province(
                g,
                q.last(),
            ) && q.len() <= p.len() && v.position == q[0] && (q.len() == p.len() ==> g.exits(u.position).index_of(q[0])
                <= g.exits(u.position).index_of(p[0])))
            &&& !at_exit && no_way_out && home ==> (now matches Some(v) && clear_way(g, units, u.id, u.position, q) && there(
                q.last(),
            ) && q.len() <= p.len() && v.position == q[0] && (q.len() == p.len() ==> g.exits(u.position).index_of(q[0])
                <= g.exits(u.position).index_of(p[0])))
            &&& now matches Some(v) ==> {
                &&& there(v.position) ==> v.state == UnitState::Withdrawn
                &&& !there(v.position) ==> v.state == u.state
            }
        }),
{
    let u = units[i];
    let start = u.position;
    let free = open_to(g, units, u.id);
    let ring = exit_hexes(g, u.side, rim, WayOff::OutOfBounds);
    let edge = exit_hexes(g, u.side, rim, WayOff::OwnEdge);
    assert(forall|h: HexCoord| ring(h) == off_the_province(g, h));
    let there = |h: HexCoord| own_edge_gap(g, u.side, rim, h) == 0;
    lemma_way_is_route(g, units, u.id, start, p);
    law_a_step_is_found_where_a_route_is(g, start, free, ring);
    law_a_step_is_found_where_a_route_is(g, start, free, edge);
    let a = lemma_first_step_leads(g, start, free, ring);
    let b = lemma_first_step_leads(g, start, free, edge);
    lemma_way_is_route(g, units, u.id, start, a);
    lemma_way_is_route(g, units, u.id, start, b);
    if clear_way(g, units, u.id, start, p) && off_the_province(g, p.last()) {
        assert(leads(g, start, free, ring, p));
    }
    if clear_way(g, units, u.id, start, p) && there(p.last()) {
        assert(leads(g, start, free, edge, p));
    }
    if first_step(g, start, free, ring) is Some {
        assert(leads(g, start, free, ring, a));
        assert(clear_way(g, units, u.id, start, a) && off_the_province(g, a.last()));
        a
    } else {
        if first_step(g, start, free, edge) is Some {
            assert(leads(g, start, free, edge, b));
        }
        b
    }
}

/// Battalion `j` is a fighting enemy of a side.
pub open spec fn fighting_foe(units: Seq<BattalionUnit>, side: Side, id: usize, j: int) -> bool {
    units[j].side != side && units[j].id != id && units[j].state == UnitState::Active && units[j].fit
}

/// The gap to the enemy is that to the nearest fighting enemy.
#[verifier::rlimit(40)]
#[verifier::spinoff_prover]
pub proof fn law_the_enemy_gap_is_to_the_nearest(units: Seq<BattalionUnit>, side: Side, id: usize, h: HexCoord)
    ensures
        match enemy_gap(units, side, id, h) {
            Some(m) => {
                &&& forall|j: int|
                    0 <= j < units.len() && #[trigger] fighting_foe(units, side, id, j) ==> m <= hex_distance(
                        h,
                        units[j].position,
                    )
                &&& exists|j: int|
                    0 <= j < units.len() && #[trigger] fighting_foe(units, side, id, j) && m == hex_distance(
                        h,
                        units[j].position,
                    )
            },
            None => forall|j: int| 0 <= j < units.len() ==> !#[trigger] fighting_foe(units, side, id, j),
        },
    decreases units.len(),
{
    if units.len() > 0 {
        let t = units.drop_last();
        let n = units.len() - 1;
        law_the_enemy_gap_is_to_the_nearest(t, side, id, h);
        assert(units.last() == units[n]);
        assert forall|j: int| 0 <= j < n implies fighting_foe(t, side, id, j) == #[trigger] fighting_foe(
            units,
            side,
            id,
            j,
        ) by {
            assert(t[j] == units[j]);
        }
        match enemy_gap(t, side, id, h) {
            Some(m) => {
                let j = choose|j: int|
                    0 <= j < t.len() && #[trigger] fighting_foe(t, side, id, j) && m == hex_distance(h, t[j].position);
                assert(t[j] == units[j]);
                assert(fighting_foe(units, side, id, j));
                assert forall|k: int| 0 <= k < units.len() && #[trigger] fighting_foe(units, side, id, k) implies enemy_gap(
                    units,
                    side,
                    id,
                    h,
                )->0 <= hex_distance(h, units[k].position) by {
                    if k < n {
                        assert(t[k] == units[k]);
                        assert(fighting_foe(t, side, id, k));
                    }
                }
                if fighting_foe(units, side, id, n) {
                    assert(fighting_foe(units, side, id, n));
                }
            },
            None => {
                assert forall|k: int| 0 <= k < n implies !#[trigger] fighting_foe(units, side, id, k) by {
                    assert(!fighting_foe(t, side, id, k));
                }
                if fighting_foe(units, side, id, n) {
                    assert(fighting_foe(units, side, id, n));
                }
            },
        }
    }
}

/// The hex is one that the battalion can step to: next to it, passable and clear.
pub open spec fn within_a_step(g: &HexGrid, units: Seq<BattalionUnit>, i: int, h: HexCoord) -> bool {
    &&& hex_distance(units[i].position, h) == 1
    &&& g.on_map(h) && g.content(h).passable
    &&& clear(units, units[i].id, h)
}

/// One hex is safer than another for a battalion that flees from the enemy: farther
/// from the nearest fighting enemy, or as far and nearer to the own edge. What is
/// near is told exactly only within a million hexes of the enemy and a thousand of
/// the edge.
pub open spec fn safer(g: &HexGrid, units: Seq<BattalionUnit>, u: BattalionUnit, rim: Seq<HexCoord>, h: HexCoord, than: HexCoord) -> bool {
    let home = own_edge_gap(g, u.side, rim, h);
    let home_than = own_edge_gap(g, u.side, rim, than);
    match (enemy_gap(units, u.side, u.id, h), enemy_gap(units, u.side, u.id, than)) {
        (Some(x), Some(y)) => x > y || (x == y && home < home_than),
        _ => home < home_than,
    }
}

/// The distances from the enemy and from the own edge are such as maps have.
pub open spec fn of_a_map(g: &HexGrid, units: Seq<BattalionUnit>, u: BattalionUnit, rim: Seq<HexCoord>, h: HexCoord) -> bool {
    &&& 0 <= own_edge_gap(g, u.side, rim, h) < 1000
    &&& enemy_gap(units, u.side, u.id, h) matches Some(x) ==> 0 <= x < 1_000_000
}

#[verifier::rlimit(40)]
proof fn lemma_danger(g: &HexGrid, units: Seq<BattalionUnit>, u: BattalionUnit, rim: Seq<HexCoord>, h: HexCoord, than: HexCoord)
    requires
        of_a_map(g, units, u, rim, h),
        of_a_map(g, units, u, rim, than),
    ensures
        danger(g, units, u.side, u.id, false, rim, h) < danger(g, units, u.side, u.id, false, rim, than) <==> safer(
            g,
            units,
            u,
            rim,
            h,
            than,
        ),
        enemy_gap(units, u.side, u.id, h) is None <==> enemy_gap(units, u.side, u.id, than) is None,
{
    law_the_enemy_gap_is_to_the_nearest(units, u.side, u.id, h);
    law_the_enemy_gap_is_to_the_nearest(units, u.side, u.id, than);
    if let Some(x) = enemy_gap(units, u.side, u.id, h) {
        let j = choose|j: int|
            0 <= j < units.len() && #[trigger] fighting_foe(units, u.side, u.id, j) && x == hex_distance(
                h,
                units[j].position,
            );
        assert(fighting_foe(units, u.side, u.id, j));
    }
    if let Some(x) = enemy_gap(units, u.side, u.id, than) {
        let j = choose|j: int|
            0 <= j < units.len() && #[trigger] fighting_foe(units, u.side, u.id, j) && x == hex_distance(
                than,
                units[j].position,
            );
        assert(fighting_foe(units, u.side, u.id, j));
    }
}

proof fn lemma_index(s: Seq<HexCoord>, k: int)
    requires
        0 <= k < s.len(),
        s.no_duplicates(),
    ensures
        s.index_of(s[k]) == k,
{
    assert(s[s.index_of(s[k])] == s[k]);
}

#[verifier::rlimit(40)]
#[verifier::spinoff_prover]
proof fn lemma_safer_step(g: &HexGrid, units: Seq<BattalionUnit>, i: int, toward: bool, rim: Seq<HexCoord>)
    requires
        0 <= i < units.len(),
        full_compass(g.order()),
    ensures
        ({
            let u = units[i];
            let unsafety = |h: HexCoord| danger(g, units, u.side, u.id, toward, rim, h);
            match safer_step(g, units, i, toward, rim) {
                Some(n) => within_a_step(g, units, i, n) && unsafety(n) < unsafety(u.position) && forall|m: HexCoord|
                    #[trigger] within_a_step(g, units, i, m) ==> unsafety(n) < unsafety(m) || (unsafety(n) == unsafety(m)
                        && g.exits(u.position).index_of(n) <= g.exits(u.position).index_of(m)),
                None => forall|m: HexCoord| #[trigger] within_a_step(g, units, i, m) ==> unsafety(u.position) <= unsafety(m),
            }
        }),
{
    let u = units[i];
    let unsafety = |h: HexCoord| danger(g, units, u.side, u.id, toward, rim, h);
    let exits = g.exits(u.position);
    let ok = |h: HexCoord| vacant(units, u.id, h) && unsafety(h) < unsafety(u.position);
    let beats = |a: HexCoord, b: HexCoord| unsafety(a) < unsafety(b);
    law_winner_matches(exits, ok, beats);
    law_winner_is_the_first_least(exits, ok, unsafety);
    assert forall|m: HexCoord| #[trigger] within_a_step(g, units, i, m) implies exists|j: int|
        0 <= j < exits.len() && #[trigger] exits[j] == m && vacant(units, u.id, m) by {
        law_exits_are_the_passable_neighbours(g, u.position, m);
        lemma_clear(units, u.id, m);
        let j = choose|j: int| 0 <= j < exits.len() && exits[j] == m;
        assert(exits[j] == m);
    }
    match winner(exits, ok, beats) {
        Some(k) => {
            let n = exits[k];
            assert(exits.contains(n));
            law_exits_are_the_passable_neighbours(g, u.position, n);
            lemma_clear(units, u.id, n);
            assert forall|m: HexCoord| #[trigger] within_a_step(g, units, i, m) implies unsafety(n) < unsafety(m) || (
            unsafety(n) == unsafety(m) && exits.index_of(n) <= exits.index_of(m)) by {
                let j = choose|j: int| 0 <= j < exits.len() && #[trigger] exits[j] == m && vacant(units, u.id, m);
                assert(exits.index_of(m) == j && exits.index_of(n) == k) by {
                    lemma_index(exits, j);
                    lemma_index(exits, k);
                }
                if ok(exits[j]) {
                    assert(unsafety(n) <= unsafety(exits[j]));
                }
            }
        },
        None => {
            assert forall|m: HexCoord| #[trigger] within_a_step(g, units, i, m) implies unsafety(u.position) <= unsafety(m) by {
                let j = choose|j: int| 0 <= j < exits.len() && #[trigger] exits[j] == m && vacant(units, u.id, m);
                assert(!ok(exits[j]));
            }
        },
    }
}

/// A battalion that does not make for its edge steps to a hex that is safer than
/// where it stands and than which no hex within a step is safer; it stays only if
/// none is safer than its own. Of equally safe hexes it takes the one that is listed
/// first. It keeps its state.
pub proof fn law_a_retreat_gains_safety(g: &HexGrid, units: Seq<BattalionUnit>, i: int, rim: Seq<HexCoord>, m: HexCoord)
    requires
        0 <= i < units.len(),
        full_compass(g.order()),
        units[i].targetable(),
        within_a_step(g, units, i, m),
        of_a_map(g, units, units[i], rim, units[i].position),
        forall|h: HexCoord| #[trigger] within_a_step(g, units, i, h) ==> of_a_map(g, units, units[i], rim, h),
    ensures
        match retreated(g, units, i, false, rim) {
            Some(v) => {
                &&& within_a_step(g, units, i, v.position)
                &&& safer(g, units, units[i], rim, v.position, units[i].position)
                &&& !safer(g, units, units[i], rim, m, v.position)
                &&& !safer(g, units, units[i], rim, v.position, m) ==> g.exits(units[i].position).index_of(v.position)
                    <= g.exits(units[i].position).index_of(m)
                &&& v.state == units[i].state
            },
            None => !safer(g, units, units[i], rim, m, units[i].position),
        },
{
    let u = units[i];
    lemma_safer_step(g, units, i, false, rim);
    lemma_danger(g, units, u, rim, m, u.position);
    if let Some(n) = safer_step(g, units, i, false, rim) {
        assert(within_a_step(g, units, i, n));
        lemma_danger(g, units, u, rim, n, u.position);
        lemma_danger(g, units, u, rim, m, n);
        lemma_danger(g, units, u, rim, n, m);
    }
}

/// A rout without any clear way off steps to a hex nearer to its own edge, the
/// nearest of those within a step, and stays only if none is nearer.
#[verifier::rlimit(40)]
pub proof fn law_a_cut_off_rout_nears_its_edge(g: &HexGrid, units: Seq<BattalionUnit>, i: int, rim: Seq<HexCoord>, m: HexCoord)
    requires
        0 <= i < units.len(),
        full_compass(g.order()),
        units[i].targetable(),
        within_a_step(g, units, i, m),
        !off_the_province(g, units[i].position) && own_edge_gap(g, units[i].side, rim, units[i].position) != 0,
        forall|w: Seq<HexCoord>|
            #[trigger] clear_way(g, units, units[i].id, units[i].position, w) ==> !off_the_province(g, w.last())
                && own_edge_gap(g, units[i].side, rim, w.last()) != 0,
    ensures
        ({
            let gap = |h: HexCoord| own_edge_gap(g, units[i].side, rim, h);
            match retreated(g, units, i, true, rim) {
                Some(v) => within_a_step(g, units, i, v.position) && gap(v.position) < gap(units[i].position) && gap(
                    v.position,
                ) <= gap(m),
                None => gap(units[i].position) <= gap(m),
            }
        }),
{
    let u = units[i];
    let start = u.position;
    let free = open_to(g, units, u.id);
    let ring = exit_hexes(g, u.side, rim, WayOff::OutOfBounds);
    let edge = exit_hexes(g, u.side, rim, WayOff::OwnEdge);
    lemma_safer_step(g, units, i, true, rim);
    law_a_step_is_found_where_a_route_is(g, start, free, ring);
    law_a_step_is_found_where_a_route_is(g, start, free, edge);
    assert forall|q: Seq<HexCoord>| !#[trigger] leads(g, start, free, ring, q) by {
        lemma_way_is_route(g, units, u.id, start, q);
    }
    assert forall|q: Seq<HexCoord>| !#[trigger] leads(g, start, free, edge, q) by {
        lemma_way_is_route(g, units, u.id, start, q);
    }
    assert(rout_step(g, units, i, rim) is None);
}

/// A retreat step is that of the first battalion with the id, and nobody else
/// changes; what holds no hex does not step.
pub proof fn law_only_the_one_that_retreats_moves(g: &HexGrid, units: Seq<BattalionUnit>, i: int, j: int, toward: bool, rim: Seq<HexCoord>)
    requires
        0 <= i < units.len() && bears(units, units[i].id, i),
        0 <= j < units.len(),
    ensures
        ({
            let (after, moved) = retreat_result(g, units, units[i].id, toward, rim);
            &&& after.len() == units.len()
            &&& j != i ==> after[j] == units[j]
            &&& !moved ==> after == units
            &&& !units[i].targetable() ==> !moved
            &&& moved <==> retreated(g, units, i, toward, rim) is Some
            &&& retreated(g, units, i, toward, rim) matches Some(v) ==> after[i] == v
        }),
{
    law_an_id_stands_for_its_first_bearer(units, units[i].id, i);
}

proof fn lemma_columns(g: &HexGrid, units: Seq<BattalionUnit>, id: usize, start: HexCoord, p: Seq<HexCoord>)
    requires
        clear_way(g, units, id, start, p),
    ensures
        p[0].q <= p.last().q + p.len() - 1,
        p[0].q >= p.last().q - (p.len() - 1),
{
    lemma_columns_of_steps(p, p.len() - 1);
}

proof fn lemma_columns_of_steps(p: Seq<HexCoord>, n: int)
    requires
        0 <= n < p.len(),
        forall|k: int, l: int|
            0 <= k && l == k + 1 && l < p.len() ==> hex_distance(#[trigger] p[k], #[trigger] p[l]) == 1,
    ensures
        p[0].q <= p[n].q + n,
        p[0].q >= p[n].q - n,
    decreases n,
{
    if n > 0 {
        lemma_columns_of_steps(p, n - 1);
        assert(hex_distance(p[n - 1], p[n]) == 1);
    }
}

/// An attacker that entered from the west only and is in rout withdraws in column 0 and
/// nowhere else; and where its row is passable and clear to the west, and no hex of the
/// map is out of bounds, its step is to the next column west.
#[verifier::rlimit(40)]
#[verifier::spinoff_prover]
pub proof fn law_western_attackers_rout_west(g: &HexGrid, units: Seq<BattalionUnit>, i: int, rim: Seq<HexCoord>)
    requires
        0 <= i < units.len(),
        full_compass(g.order()),
        g.entries().len() == 1 && g.entries()[0] == HexDirection::W,
        units[i].side == Side::Attacker && units[i].state == UnitState::Retreating && units[i].present,
        g.on_map(units[i].position),
    ensures
        retreated(g, units, i, true, rim) matches Some(v) ==> (v.state == UnitState::Withdrawn <==> v.position.q == 0),
        units[i].position.q > 0 && (forall|h: HexCoord| #[trigger] g.on_map(h) ==> !g.content(h).out_of_bounds) && (forall|
            h: HexCoord,
        |
            #[trigger] g.on_map(h) && h.r == units[i].position.r && h.q < units[i].position.q ==> g.content(h).passable
                && clear(units, units[i].id, h)) ==> (retreated(g, units, i, true, rim) matches Some(v) && v.position.q
            == units[i].position.q - 1),
{
    let u = units[i];
    let at = u.position;
    let row = Seq::new(at.q as nat, |k: int| HexCoord { q: (at.q - 1 - k) as i32, r: at.r });
    let q = law_a_rout_takes_the_shortest_way_off(g, units, i, rim, row);
    crate::retreat::law_retreat_respects_stacking(g, units, i, true, rim);
    law_an_attacker_leaves_where_it_entered(g, rim, at);
    if let Some(v) = retreated(g, units, i, true, rim) {
        law_an_attacker_leaves_where_it_entered(g, rim, v.position);
    }
    if at.q > 0 && (forall|h: HexCoord| #[trigger] g.on_map(h) ==> !g.content(h).out_of_bounds) && (forall|h: HexCoord|
        #[trigger] g.on_map(h) && h.r == at.r && h.q < at.q ==> g.content(h).passable && clear(units, u.id, h)) {
        assert forall|k: int| 0 <= k < row.len() implies (#[trigger] row[k]) != at && clear(units, u.id, row[k]) && g.on_map(
            row[k],
        ) && g.content(row[k]).passable by {
            assert(g.on_map(row[k]));
        }
        assert forall|k: int, l: int| 0 <= k && l == k + 1 && l < row.len() implies hex_distance(
            #[trigger] row[k],
            #[trigger] row[l],
        ) == 1 by {}
        assert(clear_way(g, units, u.id, at, row));
        assert(row.last().q == 0);
        law_an_attacker_leaves_where_it_entered(g, rim, row.last());
        assert forall|w: Seq<HexCoord>| #[trigger] clear_way(g, units, u.id, at, w) implies !off_the_province(g, w.last()) by {
            assert(w.last() == w[w.len() - 1]);
            assert(g.on_map(w[w.len() - 1]));
        }
        let v = retreated(g, units, i, true, rim)->0;
        assert(clear_way(g, units, u.id, at, q));
        assert(q.last() == q[q.len() - 1]);
        assert(g.on_map(q[q.len() - 1]));
        law_an_attacker_leaves_where_it_entered(g, rim, q.last());
        lemma_columns(g, units, u.id, at, q);
        assert(hex_distance(at, q[0]) == 1);
    }
}

/// The rim that an engine has routs make for is that of the defender's zone, the second
/// of the two; an engine without zones has none.
pub proof fn law_an_engine_knows_the_defenders_rim(e: &CombatEngine, h: HexCoord)
    ensures
        match e.zones() {
            Some((_, own)) => e.home_rim().contains(h) <==> own.contains(h) && (h.q == i32::MAX || !own.contains(
                HexCoord { q: (h.q + 1) as i32, r: h.r },
            )),
            None => e.home_rim().len() == 0,
        },
{
    if let Some((_, own)) = e.zones() {
        law_the_rim_faces_east(own, h);
    }
}

} // verus!
