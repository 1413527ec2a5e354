//! What holds of every goal, march, step and screen.
use vstd::prelude::*;
use crate::action::Act;
use crate::goal::{
    area_keys, band_keys, blind_goal, covers, flag_spots, goal_free, in_envelope, in_spots, order_area, order_goal, order_point,
    progress_at, spread, zone_goal, zone_keys,
};
use crate::grid::{full_compass, law_exits_are_the_passable_neighbours};
use crate::hex::{disc, hex_distance, law_disc, HexCoord};
use crate::march::{
    advance_step, approach, back_step, best_step, cheapest, cover_step, cut_short, fresh_path,
    friend_on, judged, looming, marching_path, route_key, screen, screen_key, step_key, step_order,
    too_near, unclaimed, StepRule,
};
use crate::pick::{first_where, law_first_where, law_least, least, Key};
use crate::turn::{
    enemy_distance, gathered, held, held_by_other, lemma_gathered_len, nearest_enemy_hex, number, pair, place, route_at, truth, Book,
    DivOrderTarget, Fact, Query, Route, Spot, StepScore, TurnView,
};
use crate::unit::{BattalionUnit, Side, UnitState};

verus! {

/// A fighting battalion other than `id` stands on the hex.
pub open spec fn occupied(all: Seq<BattalionUnit>, id: usize, h: HexCoord) -> bool {
    exists|j: int|
        0 <= j < all.len() && (#[trigger] all[j]).position == h && all[j].id != id && all[j].state == UnitState::Active
            && all[j].fit
}

/// A fighting battalion stands on the hex.
pub open spec fn manned(all: Seq<BattalionUnit>, h: HexCoord) -> bool {
    exists|j: int|
        0 <= j < all.len() && (#[trigger] all[j]).position == h && all[j].state == UnitState::Active && all[j].fit
}

proof fn lemma_occupied(all: Seq<BattalionUnit>, id: usize, h: HexCoord)
    ensures
        held_by_other(all, id, h) <==> occupied(all, id, h),
        held(all, h) <==> manned(all, h),
{
    if held_by_other(all, id, h) {
        let j = choose|j: int|
            0 <= j < all.len() && (#[trigger] all[j]).id != id && all[j].effective() && all[j].position == h;
        assert(all[j].position == h);
    }
    if held(all, h) {
        let j = choose|j: int| 0 <= j < all.len() && (#[trigger] all[j]).effective() && all[j].position == h;
        assert(all[j].position == h);
    }
    if occupied(all, id, h) {
        let j = choose|j: int|
            0 <= j < all.len() && (#[trigger] all[j]).position == h && all[j].id != id && all[j].state
                == UnitState::Active && all[j].fit;
        assert(all[j].effective());
    }
    if manned(all, h) {
        let j = choose|j: int|
            0 <= j < all.len() && (#[trigger] all[j]).position == h && all[j].state == UnitState::Active && all[j].fit;
        assert(all[j].effective());
    }
}

/// A hex is held exactly if a fighting battalion stands on it; by another exactly
/// if one with another id does.
pub proof fn law_whoever_fights_holds_its_hex(all: Seq<BattalionUnit>, id: usize, h: HexCoord)
    ensures
        held_by_other(all, id, h) <==> occupied(all, id, h),
        held(all, h) <==> manned(all, h),
{
    lemma_occupied(all, id, h);
}

/// A hex may be a battalion's destination exactly if it is passable, nobody has
/// claimed it and no other battalion fights on it.
pub open spec fn fit_to_stop(t: TurnView, reserved: Seq<HexCoord>, id: usize, h: HexCoord) -> bool {
    t.grid.on_map(h) && t.grid.content(h).passable && !reserved.contains(h) && !occupied(t.all, id, h)
}

/// A hex of an objective's area may be spread to exactly if it is passable and dry,
/// nobody has claimed it and nobody fights on it.
pub open spec fn fit_to_spread(t: TurnView, reserved: Seq<HexCoord>, h: HexCoord) -> bool {
    &&& t.grid.on_map(h) && t.grid.content(h).passable && !t.grid.content(h).river
    &&& !reserved.contains(h)
    &&& !manned(t.all, h)
}

/// Under an order to seize a hex a battalion makes for a hex at most two steps from
/// it, under one to engage for one at most a step from where the enemy was last
/// seen: the one it marches to already, if it may stop there; else one that it may
/// spread to, than which no such hex of the area is nearer to it, where the point
/// itself counts three hexes nearer, and of equally near ones the least hex; and
/// the point where there is no such hex. Without an order it has no such goal.
#[verifier::rlimit(40)]
#[verifier::spinoff_prover]
pub proof fn law_ordered_battalions_spread_over_the_area(
    t: TurnView,
    reserved: Seq<HexCoord>,
    u: BattalionUnit,
    center: HexCoord,
    radius: int,
    m: HexCoord,
)
    requires
        match t.order {
            Some(DivOrderTarget::Seize { hex }) => center == hex && radius == 2,
            Some(DivOrderTarget::Engage { unit: _, last_pos }) => center == last_pos && radius == 1,
            None => true,
        },
    ensures
        t.order is None ==> order_goal(t, reserved, u) is None && order_point(t) is None,
        t.order is Some ==> order_point(t) == Some(center),
        t.order is Some && (u.move_to matches Some(dest) && hex_distance(dest, center) <= radius && fit_to_stop(
            t,
            reserved,
            u.id,
            dest,
        )) ==> order_goal(t, reserved, u) == u.move_to,
        t.order is Some && !(u.move_to matches Some(dest) && hex_distance(dest, center) <= radius && fit_to_stop(
            t,
            reserved,
            u.id,
            dest,
        )) ==> (order_goal(t, reserved, u) matches Some(h) && {
            let near = |x: HexCoord| counted_near(u.position, center, x);
            &&& (h == center && !fit_to_spread(t, reserved, center)) || (hex_distance(h, center) <= radius && fit_to_spread(
                t,
                reserved,
                h,
            ))
            &&& fit_to_spread(t, reserved, m) && hex_distance(m, center) <= radius ==> fit_to_spread(t, reserved, h) && (
            near(h) < near(m) || (near(h) == near(m) && (h.q < m.q || (h.q == m.q && h.r <= m.r))))
        }),
{
    if t.order is Some {
        let order = t.order->0;
        assert(order_area(order) == (center, radius as nat));
        if let Some(dest) = u.move_to {
            lemma_occupied(t.all, u.id, dest);
        }
        lemma_spread(t, reserved, u.position, center, radius as nat, m);
        lemma_spread(t, reserved, u.position, center, radius as nat, center);
        crate::hex::law_distance_is_a_metric(center, center, center);
    }
}

/// How near a hex of an area counts: the point of it three hexes nearer than it is.
pub open spec fn counted_near(from: HexCoord, center: HexCoord, h: HexCoord) -> int {
    if h == center {
        hex_distance(from, h) - 3
    } else {
        hex_distance(from, h)
    }
}

proof fn lemma_area_key(t: TurnView, reserved: Seq<HexCoord>, from: HexCoord, center: HexCoord, radius: nat, i: int)
    requires
        0 <= i < disc(center, radius).len(),
    ensures
        ({
            let h = disc(center, radius)[i];
            let k = area_keys(t, reserved, from, center, radius)[i];
            &&& k is Some <==> fit_to_spread(t, reserved, h)
            &&& k is Some ==> k->0 == (Key {
                a: counted_near(from, center, h) as i128,
                b: h.q as i128,
                c: h.r as i128,
                d: 0,
            })
            &&& -3 <= counted_near(from, center, h) <= 0x4_0000_0000
        }),
{
    lemma_occupied(t.all, 0, disc(center, radius)[i]);
    lemma_distance_fits(from, disc(center, radius)[i]);
}

proof fn lemma_distance_fits(x: HexCoord, y: HexCoord)
    ensures
        0 <= hex_distance(x, y) <= 0x4_0000_0000,
{
}

proof fn lemma_spread(t: TurnView, reserved: Seq<HexCoord>, from: HexCoord, center: HexCoord, radius: nat, m: HexCoord)
    ensures
        ({
            let h = spread(t, reserved, from, center, radius);
            let fits = fit_to_spread(t, reserved, m) && hex_distance(m, center) <= radius;
            &&& h == center || (fit_to_spread(t, reserved, h) && hex_distance(h, center) <= radius)
            &&& fits ==> fit_to_spread(t, reserved, h) && {
                let x = counted_near(from, center, h);
                let y = counted_near(from, center, m);
                x < y || (x == y && (h.q < m.q || (h.q == m.q && h.r <= m.r)))
            }
        }),
{
    let s = disc(center, radius);
    let keys = area_keys(t, reserved, from, center, radius);
    law_least(keys);
    law_disc(center, radius, m);
    crate::hex::law_distance_is_a_metric(m, center, m);
    if let Some(i) = least(keys) {
        lemma_area_key(t, reserved, from, center, radius, i);
        law_disc(center, radius, s[i]);
        assert(s.contains(s[i]));
        crate::hex::law_distance_is_a_metric(s[i], center, s[i]);
    }
    if s.contains(m) && fit_to_spread(t, reserved, m) {
        let k = choose|k: int| 0 <= k < s.len() && s[k] == m;
        lemma_area_key(t, reserved, from, center, radius, k);
        assert(keys[k] is Some);
        let i = least(keys)->0;
        assert(!crate::pick::before(keys[k]->0, keys[i]->0));
    }
}

/// Spot `i` lies three to eight hexes ahead.
pub open spec fn ahead(spots: Seq<Spot>, h: HexCoord, i: int) -> bool {
    hex_distance(h, spots[i].hex) >= 3 && hex_distance(h, spots[i].hex) <= 8
}

/// A spot is no farther from the centre than another, and of equally central ones the
/// lesser hex.
pub open spec fn more_central(s: Spot, than: Spot) -> bool {
    s.off_centre < than.off_centre || (s.off_centre == than.off_centre && (s.hex.q < than.hex.q || (s.hex.q == than.hex.q
        && s.hex.r <= than.hex.r)))
}

/// The goal in a zone is a hex of it three to eight hexes ahead, the nearest such,
/// where there is one; else, of the whole zone, the nearest where nearness counts and
/// else one than which none is nearer to the centre. There is one exactly if the
/// zone has a hex.
pub proof fn law_the_goal_in_a_zone_is_ahead(spots: Seq<Spot>, h: HexCoord, near: bool, j: int) -> (i: int)
    requires
        0 <= j < spots.len(),
    ensures
        zone_goal(spots, h, near) == Some(spots[i].hex),
        0 <= i < spots.len(),
        ahead(spots, h, j) ==> ahead(spots, h, i) && hex_distance(h, spots[i].hex) <= hex_distance(h, spots[j].hex) && (
        hex_distance(h, spots[i].hex) == hex_distance(h, spots[j].hex) ==> more_central(spots[i], spots[j])),
        !ahead(spots, h, i) && near ==> hex_distance(h, spots[i].hex) < hex_distance(h, spots[j].hex) || (hex_distance(
            h,
            spots[i].hex,
        ) == hex_distance(h, spots[j].hex) && more_central(spots[i], spots[j])),
        !ahead(spots, h, i) && !near ==> more_central(spots[i], spots[j]),
{
    let bands = band_keys(spots, h);
    let all = zone_keys(spots, h, near);
    law_least(bands);
    law_least(all);
    assert(all[j] is Some);
    assert(ahead(spots, h, j) ==> bands[j] is Some);
    match least(bands) {
        Some(i) => i,
        None => {
            let i = least(all)->0;
            assert(bands[i] is None);
            i
        },
    }
}

#[verifier::rlimit(40)]
proof fn lemma_flag_spots(flags: Seq<crate::turn::FlagZone>, s: Spot)
    ensures
        flag_spots(flags).contains(s) <==> exists|f: int| 0 <= f < flags.len() && (#[trigger] flags[f]).zone@.contains(s),
    decreases flags.len(),
{
    if flags.len() > 0 {
        let rest = flags.drop_last();
        lemma_flag_spots(rest, s);
        let a = flag_spots(rest);
        let b = flags.last().zone@;
        assert(flags.last() == flags[flags.len() - 1]);
        if flag_spots(flags).contains(s) {
            let k = choose|k: int| 0 <= k < (a + b).len() && (a + b)[k] == s;
            if k < a.len() {
                assert(a[k] == s);
                let f = choose|f: int| 0 <= f < rest.len() && (#[trigger] rest[f]).zone@.contains(s);
                assert(flags[f] == rest[f]);
            } else {
                assert(b[k - a.len()] == s);
            }
        }
        if exists|f: int| 0 <= f < flags.len() && (#[trigger] flags[f]).zone@.contains(s) {
            let f = choose|f: int| 0 <= f < flags.len() && (#[trigger] flags[f]).zone@.contains(s);
            if f < rest.len() {
                assert(rest[f] == flags[f]);
                assert(a.contains(s));
                let k = choose|k: int| 0 <= k < a.len() && a[k] == s;
                assert((a + b)[k] == s);
            } else {
                let k = choose|k: int| 0 <= k < b.len() && b[k] == s;
                assert((a + b)[a.len() + k] == s);
            }
        }
    }
}

/// Without sight of the enemy an attacker makes for a hex of a flag's zone where
/// there are flags; everybody else makes for a hex of what is known of the enemy's
/// zone, and nowhere if nothing is known.
#[verifier::rlimit(40)]
pub proof fn law_blind_marches_make_for_flags_or_the_known_zone(t: TurnView, h: HexCoord)
    ensures
        t.side == Side::Attacker && t.flags.len() > 0 ==> (blind_goal(t, h) matches Some(x) ==> exists|f: int, z: int|
            0 <= f < t.flags.len() && 0 <= z < t.flags[f].zone@.len() && (#[trigger] t.flags[f].zone@[z]).hex == x),
        t.side == Side::Defender || t.flags.len() == 0 ==> (blind_goal(t, h) matches Some(x) ==> exists|z: int|
            0 <= z < t.intel.len() && (#[trigger] t.intel[z]).hex == x),
        t.side == Side::Defender || t.flags.len() == 0 ==> (blind_goal(t, h) is None <==> t.intel.len() == 0),
        t.side == Side::Attacker && (exists|f: int| 0 <= f < t.flags.len() && (#[trigger] t.flags[f]).zone@.len() > 0)
            ==> blind_goal(t, h) is Some,
{
    if t.side == Side::Attacker && t.flags.len() > 0 {
        let spots = flag_spots(t.flags);
        if spots.len() > 0 {
            let i = law_the_goal_in_a_zone_is_ahead(spots, h, true, 0);
            assert(spots.contains(spots[i]));
            lemma_flag_spots(t.flags, spots[i]);
            let f = choose|f: int| 0 <= f < t.flags.len() && (#[trigger] t.flags[f]).zone@.contains(spots[i]);
            let z = choose|z: int| 0 <= z < t.flags[f].zone@.len() && t.flags[f].zone@[z] == spots[i];
            assert(t.flags[f].zone@[z].hex == spots[i].hex);
        } else {
            law_least(band_keys(spots, h));
            law_least(zone_keys(spots, h, true));
        }
        if exists|f: int| 0 <= f < t.flags.len() && (#[trigger] t.flags[f]).zone@.len() > 0 {
            let f = choose|f: int| 0 <= f < t.flags.len() && (#[trigger] t.flags[f]).zone@.len() > 0;
            let s = t.flags[f].zone@[0];
            assert(t.flags[f].zone@.contains(s));
            lemma_flag_spots(t.flags, s);
            assert(spots.contains(s));
        }
    } else {
        if t.intel.len() > 0 {
            let i = law_the_goal_in_a_zone_is_ahead(t.intel, h, false, 0);
        } else {
            law_least(band_keys(t.intel, h));
            law_least(zone_keys(t.intel, h, false));
        }
    }
}

/// An attacker's blind goal is the nearest in all flags' zones three to eight hexes
/// ahead, or the nearest of all.
pub proof fn law_blind_goals_are_chosen_by_nearness(t: TurnView, h: HexCoord, f: int, z: int)
    requires
        t.side == Side::Attacker,
        0 <= f < t.flags.len(),
        0 <= z < t.flags[f].zone@.len(),
    ensures
        blind_goal(t, h) matches Some(x) && {
            let d = hex_distance(h, t.flags[f].zone@[z].hex);
            &&& 3 <= d <= 8 ==> 3 <= hex_distance(h, x) <= d
            &&& hex_distance(h, x) <= d || (3 <= hex_distance(h, x) <= 8 && d < 3)
        },
{
    let spots = flag_spots(t.flags);
    let s = t.flags[f].zone@[z];
    assert(t.flags[f].zone@.contains(s));
    lemma_flag_spots(t.flags, s);
    let j = choose|j: int| 0 <= j < spots.len() && spots[j] == s;
    let i = law_the_goal_in_a_zone_is_ahead(spots, h, true, j);
}

/// The progress at a hex is that of the first flag whose zone holds it, and none
/// where no flag's zone does.
pub proof fn law_progress_is_that_of_the_flag_there(t: TurnView, h: HexCoord, f: int)
    ensures
        0 <= f < t.flags.len() && in_spots(t.flags[f].zone@, h) && (forall|j: int|
            0 <= j < f ==> !in_spots((#[trigger] t.flags[j]).zone@, h)) ==> progress_at(t, h) == t.flags[f].progress,
        (forall|j: int| 0 <= j < t.flags.len() ==> !in_spots((#[trigger] t.flags[j]).zone@, h)) ==> progress_at(t, h) == 0,
        forall|zone: Seq<Spot>|
            #[trigger] in_spots(zone, h) <==> exists|k: int| 0 <= k < zone.len() && h == (#[trigger] zone[k]).hex,
{
    law_first_where(t.flags, covers(h));
    if 0 <= f < t.flags.len() && in_spots(t.flags[f].zone@, h) {
        assert(covers(h)(t.flags[f]));
    }
}

/// A hex is in a battalion's envelope exactly if it lies no nearer than its least
/// and no farther than its greatest range.
pub proof fn law_the_envelope_is_between_the_ranges(u: BattalionUnit, h: HexCoord)
    ensures
        in_envelope(u, None) is None,
        hex_distance(u.position, h) < u.min_attack_range || hex_distance(u.position, h) > u.attack_range ==> in_envelope(
            u,
            Some(h),
        ) is None,
        u.min_attack_range <= hex_distance(u.position, h) <= u.attack_range ==> in_envelope(u, Some(h)) == Some(h),
{
}

proof fn lemma_unclaimed_is_longest(p: Seq<HexCoord>, reserved: Seq<HexCoord>, n: int)
    ensures
        ({
            let q = unclaimed(p, reserved);
            &&& q.len() <= p.len() && q == p.take(q.len() as int)
            &&& q.len() > 0 ==> !reserved.contains(q.last())
            &&& q.len() < n <= p.len() ==> reserved.contains(p[n - 1])
        }),
    decreases p.len(),
{
    if p.len() > 0 && reserved.contains(p.last()) {
        let t = p.drop_last();
        lemma_unclaimed_is_longest(t, reserved, n);
        let k = unclaimed(p, reserved).len() as int;
        assert(t.take(k) =~= p.take(k));
        if k < n <= p.len() {
            if n < p.len() {
                assert(t[n - 1] == p[n - 1]);
            }
        }
    } else {
        assert(p.take(p.len() as int) =~= p);
    }
}

/// The hex is nearer than the standoff to a fighting battalion of those that loom:
/// all that are known to stand there, or else those in sight.
pub open spec fn within_standoff(t: TurnView, standoff: Option<i64>, h: HexCoord) -> bool {
    let foes = if t.physical_foes.len() > 0 {
        t.physical_foes
    } else {
        t.enemy
    };
    standoff matches Some(s) && s > enemy_distance(foes, h)
}

/// A march goes along the battalion's path, from its start, as far as it may: no hex
/// of it is within the standoff, nobody has claimed its last hex, and of no longer
/// part of the path that is out of the standoff is the last hex unclaimed. It is a
/// march exactly if any such part is left.
#[verifier::rlimit(40)]
#[verifier::spinoff_prover]
pub proof fn law_a_march_goes_as_far_as_it_may(
    t: TurnView,
    b: &Book,
    who: int,
    reserved: Seq<HexCoord>,
    goal: HexCoord,
    standoff: Option<i64>,
    p: Seq<HexCoord>,
    n: int,
)
    requires
        marching_path(t, b, who, reserved, goal) == Ok::<Option<Seq<HexCoord>>, Query>(Some(p)),
        0 < n <= p.len(),
    ensures
        match approach(t, b, who, reserved, Some(goal), standoff) {
            Ok(Some(Act::MoveUnit { unit_id, path })) => {
                &&& unit_id == t.own[who].id
                &&& 0 < path.len() <= p.len() && path == p.take(path.len() as int)
                &&& !reserved.contains(path.last())
                &&& forall|k: int| 0 <= k < path.len() ==> !within_standoff(t, standoff, #[trigger] path[k])
                &&& n > path.len() ==> reserved.contains(p[n - 1]) || exists|k: int|
                    0 <= k < n && within_standoff(t, standoff, #[trigger] p[k])
            },
            Ok(None) => reserved.contains(p[n - 1]) || exists|k: int|
                0 <= k < n && within_standoff(t, standoff, #[trigger] p[k]),
            _ => false,
        },
{
    let foes = looming(t);
    let cut = cut_short(foes, p, standoff);
    lemma_unclaimed_is_longest(cut, reserved, n);
    let path = unclaimed(cut, reserved);
    match standoff {
        Some(ms) => {
            let ok = too_near(foes, ms);
            law_first_where(p, ok);
            assert forall|k: int| 0 <= k < p.len() implies ok(#[trigger] p[k]) == within_standoff(t, standoff, p[k]) by {}
            match first_where(p, ok) {
                Some(i) => {
                    assert(cut == p.take(i));
                    assert(path =~= p.take(path.len() as int));
                    if n > i {
                        assert(within_standoff(t, standoff, p[i]));
                    } else {
                        assert(cut[n - 1] == p[n - 1]);
                    }
                    assert forall|k: int| 0 <= k < path.len() implies !within_standoff(t, standoff, #[trigger] path[k]) by {
                        assert(path[k] == p[k]);
                    }
                },
                None => {
                    assert forall|k: int| 0 <= k < path.len() implies !within_standoff(t, standoff, #[trigger] path[k]) by {
                        assert(path[k] == p[k]);
                    }
                },
            }
        },
        None => {},
    }
}

/// Without a goal or a path there is no march.
pub proof fn law_no_goal_no_march(t: TurnView, b: &Book, who: int, reserved: Seq<HexCoord>, goal: HexCoord, standoff: Option<i64>)
    ensures
        approach(t, b, who, reserved, None, standoff) == Ok::<Option<Act>, Query>(None),
        marching_path(t, b, who, reserved, goal) == Ok::<Option<Seq<HexCoord>>, Query>(None) ==> approach(
            t,
            b,
            who,
            reserved,
            Some(goal),
            standoff,
        ) == Ok::<Option<Act>, Query>(None),
{
}

/// Route `k` of the book is the battalion's known path to a hex.
pub open spec fn known_route(b: &Book, who: int, dest: HexCoord, k: int) -> bool {
    &&& 0 <= k < b.routes@.len()
    &&& b.routes@[k].who == who && b.routes@[k].dest == dest
    &&& forall|j: int| 0 <= j < k ==> !((#[trigger] b.routes@[j]).who == who && b.routes@[j].dest == dest)
}

/// A path is what the book says first of the battalion and the hex; an empty one is
/// none, and what the book does not say is asked.
pub proof fn law_paths_are_looked_up(b: &Book, who: int, dest: HexCoord, k: int)
    ensures
        known_route(b, who, dest, k) && b.routes@[k].path@.len() > 0 ==> route_at(b, who, dest)
            == Ok::<Option<int>, Query>(Some(k)),
        known_route(b, who, dest, k) && b.routes@[k].path@.len() == 0 ==> route_at(b, who, dest)
            == Ok::<Option<int>, Query>(None),
        (forall|j: int|
            0 <= j < b.routes@.len() ==> !((#[trigger] b.routes@[j]).who == who && b.routes@[j].dest == dest))
            ==> route_at(b, who, dest) == Err::<Option<int>, Query>(Query::Route { who: who as usize, dest }),
{
    let ok = |r: Route| r.who == who && r.dest == dest;
    law_first_where(b.routes@, ok);
    if known_route(b, who, dest, k) {
        assert(ok(b.routes@[k]));
    }
}

/// A friend fights on the hex.
pub open spec fn friend_holds(t: TurnView, who: int, h: HexCoord) -> bool {
    exists|j: int|
        0 <= j < t.all.len() && (#[trigger] t.all[j]).position == h && t.all[j].side == t.own[who].side && t.all[j].id
            != t.own[who].id && t.all[j].state == UnitState::Active && t.all[j].fit
}

proof fn lemma_friend(t: TurnView, who: int, h: HexCoord)
    ensures
        friend_on(t, t.own[who], h) <==> friend_holds(t, who, h),
{
    let u = t.own[who];
    if friend_on(t, u, h) {
        let j = choose|j: int|
            0 <= j < t.all.len() && (#[trigger] t.all[j]).id != u.id && t.all[j].side == u.side && t.all[j].effective()
                && t.all[j].position == h;
        assert(t.all[j].position == h);
    }
    if friend_holds(t, who, h) {
        let j = choose|j: int|
            0 <= j < t.all.len() && (#[trigger] t.all[j]).position == h && t.all[j].side == u.side && t.all[j].id != u.id
                && t.all[j].state == UnitState::Active && t.all[j].fit;
        assert(t.all[j].effective());
    }
}

/// A battalion keeps marching to where it marches already, if that is another hex
/// within three of the goal where it may stop and it has a path there. Otherwise,
/// where it has a path to the goal and no friend holds the goal, it takes that path;
/// where a friend holds the goal, that path without the goal, if anything is left.
#[verifier::rlimit(40)]
#[verifier::spinoff_prover]
pub proof fn law_marches_keep_their_destination(
    t: TurnView,
    b: &Book,
    who: int,
    reserved: Seq<HexCoord>,
    goal: HexCoord,
    k: int,
    j: int,
)
    ensures
        ({
            let u = t.own[who];
            let kept = u.move_to matches Some(dest) && dest != u.position && hex_distance(dest, goal) <= 3 && fit_to_stop(
                t,
                reserved,
                u.id,
                dest,
            );
            &&& kept && known_route(b, who, u.move_to->0, k) && b.routes@[k].path@.len() > 0 ==> marching_path(
                t,
                b,
                who,
                reserved,
                goal,
            ) == Ok::<Option<Seq<HexCoord>>, Query>(Some(b.routes@[k].path@))
            &&& (!kept || (known_route(b, who, u.move_to->0, k) && b.routes@[k].path@.len() == 0)) && known_route(
                b,
                who,
                goal,
                j,
            ) && b.routes@[j].path@.len() > 0 ==> {
                let p = b.routes@[j].path@;
                &&& !friend_holds(t, who, goal) ==> marching_path(t, b, who, reserved, goal) == Ok::<
                    Option<Seq<HexCoord>>,
                    Query,
                >(Some(p))
                &&& friend_holds(t, who, goal) && p.last() != goal ==> marching_path(t, b, who, reserved, goal) == Ok::<
                    Option<Seq<HexCoord>>,
                    Query,
                >(Some(p))
                &&& friend_holds(t, who, goal) && p.last() == goal && p.len() > 1 ==> marching_path(
                    t,
                    b,
                    who,
                    reserved,
                    goal,
                ) == Ok::<Option<Seq<HexCoord>>, Query>(Some(p.drop_last()))
            }
        }),
{
    let u = t.own[who];
    lemma_friend(t, who, goal);
    law_paths_are_looked_up(b, who, goal, j);
    if let Some(dest) = u.move_to {
        law_paths_are_looked_up(b, who, dest, k);
        lemma_occupied(t.all, u.id, dest);
    }
}

proof fn lemma_gathered_value(s: Seq<HexCoord>, f: spec_fn(HexCoord) -> Result<Option<Key>, Query>, i: int)
    requires
        0 <= i < s.len(),
    ensures
        gathered(s, f) matches Ok(keys) ==> keys.len() == s.len() && f(s[i]) == Ok::<Option<Key>, Query>(keys[i]),
{
    lemma_gathered_len(s, f);
}

/// Where the goal itself cannot be reached the battalion goes to a neighbour of it
/// that it has a path to, by a path than which that to no other neighbour is
/// cheaper; with a friend on a goal next to it, only to one where it may stop.
#[verifier::rlimit(40)]
pub proof fn law_the_cheapest_neighbour_is_taken(
    t: TurnView,
    b: &Book,
    who: int,
    reserved: Seq<HexCoord>,
    goal: HexCoord,
    only_free: bool,
    m: int,
    k: int,
)
    requires
        0 <= m < t.grid.around(goal).len(),
    ensures
        cheapest(t, b, who, reserved, goal, only_free) matches Ok(found) ==> {
            &&& found matches Some(i) ==> 0 <= i < b.routes@.len() && b.routes@[i].who == who && b.routes@[i].path@.len() > 0
                && t.grid.around(goal).contains(b.routes@[i].dest) && (only_free ==> fit_to_stop(
                t,
                reserved,
                t.own[who].id,
                b.routes@[i].dest,
            ))
            &&& known_route(b, who, t.grid.around(goal)[m], k) && b.routes@[k].path@.len() > 0 && (only_free
                ==> fit_to_stop(t, reserved, t.own[who].id, t.grid.around(goal)[m])) ==> (found matches Some(i)
                && b.routes@[i].cost <= b.routes@[k].cost)
        },
{
    let around = t.grid.around(goal);
    let f = route_key(t, b, who, reserved, only_free);
    if let Ok(keys) = gathered(around, f) {
        law_least(keys);
        lemma_gathered_value(around, f, m);
        law_paths_are_looked_up(b, who, around[m], k);
        lemma_occupied(t.all, t.own[who].id, around[m]);
        if let Some(i) = least(keys) {
            lemma_gathered_value(around, f, i);
            lemma_occupied(t.all, t.own[who].id, around[i]);
            law_first_where(b.routes@, |r: Route| r.who == who && r.dest == around[i]);
            assert(around.contains(around[i]));
        }
    }
}

/// How a fresh path is found where the goal cannot be reached or only a friend's hex
/// would be left of it.
pub proof fn law_blocked_goals_are_gone_next_to(t: TurnView, b: &Book, who: int, reserved: Seq<HexCoord>, goal: HexCoord, i: int)
    ensures
        route_at(b, who, goal) == Ok::<Option<int>, Query>(None) && cheapest(t, b, who, reserved, goal, false) == Ok::<
            Option<int>,
            Query,
        >(Some(i)) && !friend_holds(t, who, goal) ==> fresh_path(t, b, who, reserved, goal) == Ok::<
            Option<Seq<HexCoord>>,
            Query,
        >(Some(b.routes@[i].path@)),
        route_at(b, who, goal) == Ok::<Option<int>, Query>(None) && cheapest(t, b, who, reserved, goal, false) == Ok::<
            Option<int>,
            Query,
        >(None) ==> fresh_path(t, b, who, reserved, goal) == Ok::<Option<Seq<HexCoord>>, Query>(None),
        route_at(b, who, goal) == Ok::<Option<int>, Query>(Some(i)) && b.routes@[i].path@ == seq![goal] && friend_holds(
            t,
            who,
            goal,
        ) ==> (cheapest(t, b, who, reserved, goal, true) matches Ok(found) ==> fresh_path(t, b, who, reserved, goal)
            == match found {
            Some(j) => Ok::<Option<Seq<HexCoord>>, Query>(Some(b.routes@[j].path@)),
            None => Ok(None),
        }),
{
    lemma_friend(t, who, goal);
}

/// What a rule asks of a step, given how far the enemy is from the hex.
pub open spec fn allowed(t: TurnView, rule: StepRule, h: HexCoord) -> bool {
    let d = enemy_distance(t.enemy, h);
    let dry = !t.grid.river_at(h);
    match rule {
        StepRule::Withdraw { now } => now < d,
        StepRule::Displace => 2 <= d,
        StepRule::Shadow { now, anchor: _, leash: _ } => now < d,
        StepRule::Evade => 1 < d,
        StepRule::Close { now, goal } => now > hex_distance(goal, h),
        StepRule::FallBack { now } => dry && now < d,
        StepRule::Cover { now, ground } => dry && now <= d && t.grid.on_map(h) && t.grid.content(h).cover > ground,
    }
}

/// A step is judged exactly where its rule allows it; withdrawals, displacements,
/// evasions and falling back by the distance from the enemy, closing by that from
/// the goal, and a headquarters also by how far it would leave its leash.
pub proof fn law_steps_are_judged_by_their_rule(t: TurnView, rule: StepRule, h: HexCoord)
    requires
        rule matches StepRule::Cover { now, ground } ==> ground >= 0 || t.grid.on_map(h),
    ensures
        judged(t, rule, h) is Some <==> allowed(t, rule, h),
        judged(t, rule, h) matches Some((score, distance, beyond)) ==> match rule {
            StepRule::Withdraw { now: _ } => score == StepScore::Withdraw && distance == enemy_distance(t.enemy, h) && beyond == 0,
            StepRule::Displace => score == StepScore::Withdraw && distance == enemy_distance(t.enemy, h) && beyond == 0,
            StepRule::Shadow { now: _, anchor, leash } => score == StepScore::Shadow && distance == enemy_distance(
                t.enemy,
                h,
            ) && beyond >= 0 && beyond >= hex_distance(anchor, h) - leash && (beyond == 0 || beyond == hex_distance(
                anchor,
                h,
            ) - leash),
            StepRule::Evade => score == StepScore::Evade && distance == enemy_distance(t.enemy, h) && beyond == 0,
            StepRule::Close { now: _, goal } => score == StepScore::Close && distance == hex_distance(goal, h) && beyond == 0,
            StepRule::FallBack { now: _ } => score == StepScore::FallBack && distance == enemy_distance(t.enemy, h) && beyond
                == 0,
            StepRule::Cover { now: _, ground: _ } => score == StepScore::Cover && distance == 0 && beyond == 0,
        },
{
}

/// The hex may be stepped to under a rule: a passable neighbour that nobody has
/// claimed and no other battalion fights on, and that the rule allows.
pub open spec fn steppable(t: TurnView, who: int, reserved: Seq<HexCoord>, rule: StepRule, h: HexCoord) -> bool {
    &&& hex_distance(t.own[who].position, h) == 1
    &&& t.grid.on_map(h) && t.grid.content(h).passable
    &&& !occupied(t.all, t.own[who].id, h) && !reserved.contains(h)
    &&& judged(t, rule, h) is Some
}

/// The answer that the book has for a step.
pub open spec fn step_answer(t: TurnView, b: &Book, who: int, rule: StepRule, h: HexCoord) -> Result<Option<(i64, i64)>, Query> {
    let (score, distance, beyond) = judged(t, rule, h)->0;
    pair(
        b,
        Query::Step { who: who as usize, hex: h, score, distance: distance as i64, beyond: beyond as i64 },
    )
}

/// Of all hexes that may be stepped to and can be reached the one with the least
/// score is taken, then with the fewest hours, then the least hex; there is no step
/// only where there is no such hex.
pub proof fn law_the_best_step_is_taken(t: TurnView, b: &Book, who: int, reserved: Seq<HexCoord>, rule: StepRule, m: HexCoord)
    requires
        full_compass(t.grid.order()),
        steppable(t, who, reserved, rule, m),
    ensures
        best_step(t, b, who, reserved, rule) matches Ok(found) ==> (step_answer(t, b, who, rule, m) matches Ok(worth) && {
            &&& found matches Some(h) ==> steppable(t, who, reserved, rule, h) && step_answer(t, b, who, rule, h) is Ok
                && step_answer(t, b, who, rule, h)->Ok_0 is Some
            &&& worth matches Some((score, hours)) ==> (found matches Some(h) && (step_answer(t, b, who, rule, h) matches Ok(
                Some((s, hrs)),
            ) && (s < score || (s == score && (hrs < hours || (hrs == hours && (h.q < m.q || (h.q == m.q && h.r
                <= m.r))))))))
        }),
{
    let u = t.own[who];
    let exits = t.grid.exits(u.position);
    let f = step_key(t, b, who, reserved, rule);
    law_exits_are_the_passable_neighbours(t.grid, u.position, m);
    let k = choose|k: int| 0 <= k < exits.len() && exits[k] == m;
    lemma_occupied(t.all, u.id, m);
    if let Ok(keys) = gathered(exits, f) {
        lemma_gathered_value(exits, f, k);
        law_least(keys);
        if let Some(i) = least(keys) {
            lemma_gathered_value(exits, f, i);
            lemma_occupied(t.all, u.id, exits[i]);
            assert(exits.contains(exits[i]));
            law_exits_are_the_passable_neighbours(t.grid, u.position, exits[i]);
        }
    }
}

/// A step is a march of one hex.
pub proof fn law_a_step_is_a_march_of_one_hex(t: TurnView, b: &Book, who: int, reserved: Seq<HexCoord>, rule: StepRule)
    ensures
        best_step(t, b, who, reserved, rule) matches Ok(Some(h)) ==> step_order(t, b, who, reserved, rule) == Ok::<
            Option<Act>,
            Query,
        >(Some(Act::MoveUnit { unit_id: t.own[who].id, path: seq![h] })),
        best_step(t, b, who, reserved, rule) == Ok::<Option<HexCoord>, Query>(None) ==> step_order(
            t,
            b,
            who,
            reserved,
            rule,
        ) == Ok::<Option<Act>, Query>(None),
{
}

/// Which steps go forward, back and into cover: forward nearer to the nearest
/// fighting enemy or, without one, to the blind goal; back away from the enemy; into
/// cover to better cover than where the battalion stands, no nearer to the enemy.
#[verifier::rlimit(40)]
pub proof fn law_steps_forward_back_and_into_cover(t: TurnView, b: &Book, who: int, reserved: Seq<HexCoord>)
    ensures
        ({
            let at = t.own[who].position;
            &&& nearest_enemy_hex(t.enemy, at) matches Some(e) ==> advance_step(t, b, who, reserved) == step_order(
                t,
                b,
                who,
                reserved,
                StepRule::Close { now: hex_distance(at, e) as i64, goal: e },
            )
            &&& nearest_enemy_hex(t.enemy, at) is None && blind_goal(t, at) is None ==> advance_step(t, b, who, reserved)
                == Ok::<Option<Act>, Query>(None)
            &&& nearest_enemy_hex(t.enemy, at) is None ==> (blind_goal(t, at) matches Some(g) ==> advance_step(
                t,
                b,
                who,
                reserved,
            ) == step_order(t, b, who, reserved, StepRule::Close { now: hex_distance(at, g) as i64, goal: g }))
            &&& back_step(t, b, who, reserved) == step_order(
                t,
                b,
                who,
                reserved,
                StepRule::FallBack { now: enemy_distance(t.enemy, at) as i64 },
            )
            &&& t.grid.on_map(at) ==> cover_step(t, b, who, reserved) == step_order(
                t,
                b,
                who,
                reserved,
                StepRule::Cover { now: enemy_distance(t.enemy, at) as i64, ground: t.grid.content(at).cover },
            )
        }),
{
}

/// The hex is a screen against a threat: on the ring round it, passable and dry,
/// unclaimed and not fought on by another, and the battalion has a path there that
/// crosses no ford.
pub open spec fn screening(t: TurnView, b: &Book, who: int, reserved: Seq<HexCoord>, threat: HexCoord, ring: int, h: HexCoord, k: int) -> bool {
    &&& hex_distance(threat, h) == ring
    &&& t.grid.on_map(h) && t.grid.content(h).passable && !t.grid.content(h).river
    &&& !occupied(t.all, t.own[who].id, h) && !reserved.contains(h)
    &&& known_route(b, who, h, k) && b.routes@[k].path@.len() > 0
    &&& forall|x: int| 0 <= x < b.routes@[k].path@.len() ==> !t.grid.river_at(#[trigger] b.routes@[k].path@[x])
}

/// A battalion behind a river on the ring already holds. Otherwise it goes to a
/// screen than which none is better: none behind a river if this one is before it,
/// none with better cover that is as well shielded, none as good that is cheaper to
/// reach, and of equals the greatest hex; but out from behind a river it never goes
/// to a screen before it.
#[verifier::rlimit(40)]
#[verifier::spinoff_prover]
pub proof fn law_the_best_screen_is_taken(
    t: TurnView,
    b: &Book,
    who: int,
    reserved: Seq<HexCoord>,
    threat: HexCoord,
    ring: u8,
    m: HexCoord,
    k: int,
)
    requires
        screening(t, b, who, reserved, threat, ring as int, m, k),
    ensures
        ({
            let u = t.own[who];
            let cover = |h: HexCoord| t.grid.content(h).cover;
            let shield = |h: HexCoord| truth(b, Query::Shielded { from: h, threat });
            let yes = Ok::<bool, Query>(true);
            screen(t, b, who, reserved, Some(threat), ring) matches Ok(found) ==> {
                &&& shield(u.position) == yes && hex_distance(threat, u.position) == ring ==> found == Some(
                    Act::Hold { unit_id: u.id },
                )
                &&& !(shield(u.position) == yes && hex_distance(threat, u.position) == ring) && found != Some(
                    Act::Hold { unit_id: u.id },
                ) ==> exists|h: HexCoord, j: int|
                    {
                        &&& #[trigger] screening(t, b, who, reserved, threat, ring as int, h, j)
                        &&& found == Some(Act::MoveUnit { unit_id: u.id, path: b.routes@[j].path@ })
                        &&& shield(m) == yes ==> shield(h) == yes
                        &&& shield(u.position) == yes ==> shield(h) == yes
                        &&& shield(m) == shield(h) ==> cover(h) >= cover(m)
                        &&& shield(m) == shield(h) && cover(h) == cover(m) ==> b.routes@[j].cost < b.routes@[k].cost || (
                        b.routes@[j].cost == b.routes@[k].cost && (h.q > m.q || (h.q == m.q && h.r >= m.r)))
                    }
                &&& found == Some(Act::Hold { unit_id: u.id }) ==> shield(u.position) == yes && (hex_distance(
                    threat,
                    u.position,
                ) == ring || shield(m) != yes)
            }
        }),
{
    let u = t.own[who];
    let s = disc(threat, ring as nat);
    let f = screen_key(t, b, who, reserved, threat, ring as int);
    let yes = Ok::<bool, Query>(true);
    if let Ok(now) = truth(b, Query::Shielded { from: u.position, threat }) {
        if !(now && hex_distance(threat, u.position) == ring) {
            law_disc(threat, ring as nat, m);
            let x = choose|x: int| 0 <= x < s.len() && s[x] == m;
            law_paths_are_looked_up(b, who, m, k);
            lemma_occupied(t.all, u.id, m);
            if let Ok(keys) = gathered(s, f) {
                lemma_gathered_value(s, f, x);
                law_least(keys);
                assert(!crate::march::fords(t, b.routes@[k].path@));
                assert(keys[x] is Some);
                let i = least(keys)->0;
                lemma_gathered_value(s, f, i);
                let h = s[i];
                lemma_occupied(t.all, u.id, h);
                law_first_where(b.routes@, |r: Route| r.who == who && r.dest == h);
                if let Ok(Some(j)) = route_at(b, who, h) {
                    assert forall|y: int| 0 <= y < b.routes@[j].path@.len() implies !t.grid.river_at(
                        #[trigger] b.routes@[j].path@[y],
                    ) by {
                        assert(!crate::march::fords(t, b.routes@[j].path@));
                    }
                    assert(known_route(b, who, h, j)) by {
                        let ok = |r: Route| r.who == who && r.dest == h;
                        assert(first_where(b.routes@, ok) == Some(j));
                        assert forall|l: int| 0 <= l < j implies !((#[trigger] b.routes@[l]).who == who
                            && b.routes@[l].dest == h) by {
                            assert(!ok(b.routes@[l]));
                        }
                    }
                    assert(screening(t, b, who, reserved, threat, ring as int, h, j));
                }
            }
        }
    }
}

/// Where there is no screen a battalion behind a river holds, and any other closes
/// up to the ring; without a threat nothing is screened.
#[verifier::rlimit(40)]
#[verifier::spinoff_prover]
pub proof fn law_without_a_screen_the_ring_is_approached(
    t: TurnView,
    b: &Book,
    who: int,
    reserved: Seq<HexCoord>,
    threat: HexCoord,
    ring: u8,
)
    requires
        forall|h: HexCoord, k: int| !#[trigger] screening(t, b, who, reserved, threat, ring as int, h, k),
    ensures
        screen(t, b, who, reserved, None, ring) == Ok::<Option<Act>, Query>(None),
        screen(t, b, who, reserved, Some(threat), ring) matches Ok(found) ==> {
            &&& truth(b, Query::Shielded { from: t.own[who].position, threat }) == Ok::<bool, Query>(true) ==> found == Some(
                Act::Hold { unit_id: t.own[who].id },
            )
            &&& truth(b, Query::Shielded { from: t.own[who].position, threat }) == Ok::<bool, Query>(false) ==> approach(
                t,
                b,
                who,
                reserved,
                Some(threat),
                Some(ring as i64),
            ) == Ok::<Option<Act>, Query>(found)
        },
{
    let u = t.own[who];
    let s = disc(threat, ring as nat);
    let f = screen_key(t, b, who, reserved, threat, ring as int);
    lemma_gathered_len(s, f);
    if let Ok(keys) = gathered(s, f) {
        law_least(keys);
        if let Some(i) = least(keys) {
            lemma_gathered_value(s, f, i);
            let h = s[i];
            lemma_occupied(t.all, u.id, h);
            let ok = |r: Route| r.who == who && r.dest == h;
            law_first_where(b.routes@, ok);
            if let Ok(Some(j)) = route_at(b, who, h) {
                assert forall|l: int| 0 <= l < j implies !((#[trigger] b.routes@[l]).who == who && b.routes@[l].dest == h) by {
                    assert(!ok(b.routes@[l]));
                }
                assert(known_route(b, who, h, j));
                assert(screening(t, b, who, reserved, threat, ring as int, h, j));
            }
        }
    }
}

/// Entry `k` of the book is what it says of a question: the first that answers it.
pub open spec fn says(b: &Book, q: Query, k: int) -> bool {
    &&& 0 <= k < b.facts@.len() && b.facts@[k].0 == q
    &&& forall|j: int| 0 <= j < k ==> (#[trigger] b.facts@[j]).0 != q
}

/// An answer is read as it is written, and one that does not fit the question, or is
/// missing, is asked for.
pub proof fn law_answers_are_read_as_written(b: &Book, q: Query, k: int)
    ensures
        says(b, q, k) ==> match b.facts@[k].1 {
            Fact::Yes => truth(b, q) == Ok::<bool, Query>(true) && number(b, q) == Err::<i64, Query>(q),
            Fact::No => truth(b, q) == Ok::<bool, Query>(false) && pair(b, q) == Ok::<Option<(i64, i64)>, Query>(None)
                && place(b, q) == Ok::<Option<HexCoord>, Query>(None),
            Fact::Number(n) => number(b, q) == Ok::<i64, Query>(n) && truth(b, q) == Err::<bool, Query>(q),
            Fact::Pair(m, n) => pair(b, q) == Ok::<Option<(i64, i64)>, Query>(Some((m, n))),
            Fact::Hex(h) => place(b, q) == Ok::<Option<HexCoord>, Query>(Some(h)),
        },
        (forall|j: int| 0 <= j < b.facts@.len() ==> (#[trigger] b.facts@[j]).0 != q) ==> truth(b, q) == Err::<bool, Query>(q)
            && number(b, q) == Err::<i64, Query>(q) && pair(b, q) == Err::<Option<(i64, i64)>, Query>(q) && place(b, q)
            == Err::<Option<HexCoord>, Query>(q),
{
    law_first_where(b.facts@, crate::turn::answers(q));
    if says(b, q, k) {
        assert(crate::turn::answers(q)(b.facts@[k]));
    }
}

/// Where a battalion may stop: on a passable hex of the map that nobody has claimed
/// and no other battalion fights on; to spread over an area it must also be dry and
/// nobody at all may fight there.
pub proof fn law_where_a_battalion_may_stop(t: TurnView, reserved: Seq<HexCoord>, id: usize, h: HexCoord)
    ensures
        goal_free(t, reserved, id, h) <==> {
            &&& t.grid.on_map(h) && t.grid.content(h).passable && !reserved.contains(h)
            &&& forall|j: int|
                0 <= j < t.all.len() && (#[trigger] t.all[j]).position == h && t.all[j].state == UnitState::Active
                    && t.all[j].fit ==> t.all[j].id == id
        },
        crate::goal::area_hex_free(t, reserved, h) <==> {
            &&& t.grid.on_map(h) && t.grid.content(h).passable && !t.grid.content(h).river && !reserved.contains(h)
            &&& forall|j: int|
                0 <= j < t.all.len() && (#[trigger] t.all[j]).position == h ==> !(t.all[j].state == UnitState::Active
                    && t.all[j].fit)
        },
{
    lemma_occupied(t.all, id, h);
    if !occupied(t.all, id, h) {
        assert forall|j: int| 0 <= j < t.all.len() && (#[trigger] t.all[j]).position == h && t.all[j].state
            == UnitState::Active && t.all[j].fit implies t.all[j].id == id by {}
    }
    if !manned(t.all, h) {
        assert forall|j: int| 0 <= j < t.all.len() && (#[trigger] t.all[j]).position == h implies !(t.all[j].state
            == UnitState::Active && t.all[j].fit) by {}
    }
}

/// What each rule asks of a step: a withdrawal, a shadowing headquarters and a
/// fall-back must gain distance from the enemy, the last on dry ground; a gun that
/// is displaced and a raider must end two hexes off it; an advance must come nearer
/// to its goal; and a step into cover must lead, on dry ground and no nearer to the
/// enemy, into better cover.
pub proof fn law_what_steps_are_for(t: TurnView, h: HexCoord, now: i64, goal: HexCoord, leash: i32, ground: i64)
    requires
        t.grid.on_map(h),
    ensures
        ({
            let d = enemy_distance(t.enemy, h);
            let dry = !t.grid.content(h).river;
            &&& judged(t, StepRule::Withdraw { now }, h) is Some <==> d > now
            &&& judged(t, StepRule::FallBack { now }, h) is Some <==> d > now && dry
            &&& judged(t, StepRule::Shadow { now, anchor: goal, leash }, h) is Some <==> d > now
            &&& judged(t, StepRule::Displace, h) is Some <==> d > 1
            &&& judged(t, StepRule::Evade, h) is Some <==> d > 1
            &&& judged(t, StepRule::Close { now, goal }, h) is Some <==> hex_distance(h, goal) < now
            &&& judged(t, StepRule::Cover { now, ground }, h) is Some <==> d >= now && dry && t.grid.content(h).cover > ground
        }),
{
}

} // verus!
