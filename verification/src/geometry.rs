//! What holds of the map, of battalions and of every choice.
use vstd::prelude::*;
use crate::grid::{neighbours_upto, open_upto, HexGrid};
use crate::hex::{hex_distance, is_step, HexCoord, HexDirection};
use crate::pick::{before, count_where, least, law_least, law_those_where, those_where, Key};
use crate::retreat::{namesake, unit_index};
use crate::unit::{BattalionUnit, Condition, UnitState};

verus! {

/// East and west lie along a row, and each of the other directions crosses to
/// the next row: the north-western and the south-eastern neighbour keep the
/// column, the north-eastern lies one column east and the south-western one
/// column west.
pub proof fn law_compass(h: HexCoord, n: HexCoord)
    ensures
        is_step(h, HexDirection::E, n) <==> n.r == h.r && n.q - h.q == 1,
        is_step(h, HexDirection::W, n) <==> is_step(n, HexDirection::E, h),
        is_step(h, HexDirection::SE, n) <==> n.q == h.q && n.r - h.r == 1,
        is_step(h, HexDirection::NW, n) <==> is_step(n, HexDirection::SE, h),
        is_step(h, HexDirection::NE, n) <==> n.q - h.q == 1 && h.r - n.r == 1,
        is_step(h, HexDirection::SW, n) <==> is_step(n, HexDirection::NE, h),
{
}

/// The distance is the number of steps: from every hex other than the goal some
/// neighbour is nearer to the goal by exactly one, and none by more.
pub proof fn law_distance_counts_steps(h: HexCoord, goal: HexCoord) -> (n: HexCoord)
    ensures
        h != goal ==> hex_distance(h, n) == 1 && hex_distance(n, goal) == hex_distance(h, goal) - 1,
        hex_distance(h, goal) == 1 <==> {
            let q = goal.q - h.q;
            let r = goal.r - h.r;
            -1 <= q <= 1 && -1 <= r <= 1 && -1 <= q + r <= 1 && !(q == 0 && r == 0)
        },
        forall|m: HexCoord|
            #[trigger] hex_distance(h, m) == 1 ==> hex_distance(m, goal) >= hex_distance(h, goal) - 1,
{
    let q = goal.q - h.q;
    let r = goal.r - h.r;
    if q > 0 && r < 0 {
        HexCoord { q: (h.q + 1) as i32, r: (h.r - 1) as i32 }
    } else if q < 0 && r > 0 {
        HexCoord { q: (h.q - 1) as i32, r: (h.r + 1) as i32 }
    } else if q > 0 {
        HexCoord { q: (h.q + 1) as i32, r: h.r }
    } else if q < 0 {
        HexCoord { q: (h.q - 1) as i32, r: h.r }
    } else if r > 0 {
        HexCoord { q: h.q, r: (h.r + 1) as i32 }
    } else {
        HexCoord { q: h.q, r: (h.r - 1) as i32 }
    }
}

/// A map has hexes from column and row 0 up to its width and height, and only
/// they are passable, fords, urban or out of bounds.
pub proof fn law_only_the_map_has_ground(g: &HexGrid, h: HexCoord)
    ensures
        g.on_map(h) <==> 0 <= h.q && h.q < g.columns() && 0 <= h.r && h.r < g.rows(),
        g.open_ground(h) <==> g.on_map(h) && g.content(h).passable,
        g.river_at(h) <==> g.on_map(h) && g.content(h).river,
        g.urban_at(h) <==> g.on_map(h) && g.content(h).urban,
        g.out_of_bounds_at(h) <==> g.on_map(h) && g.content(h).out_of_bounds,
{
}

/// Only an active battalion fights, and then exactly if it is fit; whoever is
/// active, in rout or parked at its edge is on the board, and is a target exactly
/// if something of it is left; nobody that surrendered, was eliminated or left
/// the battle is a target or fights.
pub proof fn law_standing(u: BattalionUnit)
    ensures
        u.effective() ==> u.state == UnitState::Active,
        u.state == UnitState::Active ==> u.effective() == u.fit,
        u.state == UnitState::Active || u.state == UnitState::Retreating || u.state == UnitState::Withdrawn
            ==> u.on_board() && u.targetable() == u.present,
        u.state == UnitState::Surrendered || u.state == UnitState::Eliminated || u.state
            == UnitState::LeftBattle ==> !u.on_board() && !u.targetable() && !u.effective(),
        u.fires_support() <==> u.fire_support && !(u.fire_cooldown > 0),
        u.limbered() <==> u.kind.towed && !u.is_emplaced,
{
}

/// A new condition replaces every quantity of the old one and nothing else.
pub proof fn law_condition_replaces_condition(u: BattalionUnit, c: Condition, d: Condition)
    ensures
        ({
            let v = u.in_condition(c);
            &&& v.org == c.org && v.org_ratio == c.org_ratio && v.org_cents == c.org_cents
            &&& v.strength == c.strength && v.strength_cents == c.strength_cents
            &&& v.fit == c.fit && v.present == c.present
        }),
        u.in_condition(d).in_condition(c) == u.in_condition(c),
        u.in_condition(
            Condition {
                org: u.org,
                org_ratio: u.org_ratio,
                strength: u.strength,
                org_cents: u.org_cents,
                strength_cents: u.strength_cents,
                fit: u.fit,
                present: u.present,
            },
        ) == u,
{
}

/// A new state, a new hex and a spent attack change what they say and nothing else; a
/// spent attack ends the march and the cover stance.
pub proof fn law_changes_change_what_they_say(u: BattalionUnit, state: UnitState, h: HexCoord)
    ensures
        u.in_state(state).state == state && u.in_state(state).in_state(u.state) == u,
        u.at_hex(h).position == h && u.at_hex(h).at_hex(u.position) == u,
        ({
            let v = u.after_attack();
            &&& v.acted && v.move_to is None && !v.is_holding
            &&& v == (BattalionUnit { acted: v.acted, move_to: v.move_to, is_holding: v.is_holding, ..u })
        }),
{
}

/// Keys rank by their first number that differs, the smaller first.
pub proof fn law_keys_rank_by_their_first_difference(x: Key, y: Key)
    ensures
        x.a < y.a ==> before(x, y) && !before(y, x),
        x.a == y.a && x.b < y.b ==> before(x, y) && !before(y, x),
        x.a == y.a && x.b == y.b && x.c < y.c ==> before(x, y) && !before(y, x),
        x.a == y.a && x.b == y.b && x.c == y.c && x.d < y.d ==> before(x, y) && !before(y, x),
        x == y ==> !before(x, y),
{
}

/// The elements that match keep their order, and those that do not are left
/// out; the count is theirs.
pub proof fn law_matches_keep_their_order<A>(s: Seq<A>, ok: spec_fn(A) -> bool)
    ensures
        those_where(s, ok) == s.filter(ok),
        count_where(s, ok) == s.filter(ok).len(),
    decreases s.len(),
{
    reveal(Seq::filter);
    law_those_where(s, ok);
    if s.len() > 0 {
        law_matches_keep_their_order(s.drop_last(), ok);
    } else {
        assert(those_where(s, ok) =~= s.filter(ok));
    }
}

/// The least of some candidates has the smallest first number of all.
pub proof fn law_the_least_comes_first(keys: Seq<Option<Key>>, j: int)
    requires
        0 <= j < keys.len(),
        keys[j] is Some,
    ensures
        least(keys) matches Some(i) && 0 <= i < keys.len() && keys[i] is Some && keys[i]->0.a <= keys[j]->0.a && (
        keys[i]->0.a == keys[j]->0.a ==> keys[i]->0.b <= keys[j]->0.b) && (keys[i]->0.a == keys[j]->0.a
            && keys[i]->0.b == keys[j]->0.b ==> keys[i]->0.c <= keys[j]->0.c) && (keys[i]->0.a
            == keys[j]->0.a && keys[i]->0.b == keys[j]->0.b && keys[i]->0.c == keys[j]->0.c
            ==> keys[i]->0.d <= keys[j]->0.d),
{
    law_least(keys);
}

/// Battalion `i` is the one that an id stands for: the first that has it.
pub open spec fn bears(units: Seq<BattalionUnit>, id: usize, i: int) -> bool {
    &&& 0 <= i < units.len()
    &&& units[i].id == id
    &&& forall|j: int| 0 <= j < i ==> (#[trigger] units[j]).id != id
}

/// An id stands for the first battalion that has it, and for none where no
/// battalion has it.
pub proof fn law_an_id_stands_for_its_first_bearer(units: Seq<BattalionUnit>, id: usize, i: int)
    ensures
        unit_index(units, id) == Some(i) <==> bears(units, id, i),
        unit_index(units, id) is None <==> forall|j: int| 0 <= j < units.len() ==> (#[trigger] units[j]).id != id,
{
    crate::pick::law_first_where(units, |u: BattalionUnit| u.id == id);
}

/// The neighbours of a hex are listed in the map's order of directions, and its exits
/// are the passable ones of them, in the same order.
pub proof fn law_neighbours_are_listed_in_order(g: &HexGrid, h: HexCoord, k: int)
    requires
        i32::MIN < h.q < i32::MAX,
        i32::MIN < h.r < i32::MAX,
    ensures
        g.around(h).len() == 6,
        0 <= k < 6 ==> is_step(h, g.order()[k], g.around(h)[k]),
        g.exits(h) == g.around(h).filter(|n: HexCoord| g.on_map(n) && g.content(n).passable),
{
    lemma_all_neighbours(g.order(), h, 6);
    let s = g.around(h);
    let ok = |n: HexCoord| g.on_map(n) && g.content(n).passable;
    lemma_open_is_filter(g, s, s.len());
    assert(s.take(s.len() as int) =~= s);
}

proof fn lemma_all_neighbours(order: Seq<HexDirection>, h: HexCoord, n: nat)
    requires
        i32::MIN < h.q < i32::MAX,
        i32::MIN < h.r < i32::MAX,
    ensures
        neighbours_upto(order, h, n).len() == n,
        forall|k: int| 0 <= k < n ==> is_step(h, order[k], #[trigger] neighbours_upto(order, h, n)[k]),
    decreases n,
{
    if n > 0 {
        lemma_all_neighbours(order, h, (n - 1) as nat);
        let rest = neighbours_upto(order, h, (n - 1) as nat);
        let s = neighbours_upto(order, h, n);
        assert forall|k: int| 0 <= k < n implies is_step(h, order[k], #[trigger] s[k]) by {
            if k < n - 1 {
                assert(s[k] == rest[k]);
            }
        }
    }
}

proof fn lemma_open_is_filter(g: &HexGrid, s: Seq<HexCoord>, n: nat)
    requires
        n <= s.len(),
    ensures
        open_upto(g, s, n) == s.take(n as int).filter(|x: HexCoord| g.on_map(x) && g.content(x).passable),
    decreases n,
{
    reveal(Seq::filter);
    let ok = |x: HexCoord| g.on_map(x) && g.content(x).passable;
    if n > 0 {
        lemma_open_is_filter(g, s, (n - 1) as nat);
        assert(s.take(n as int).drop_last() =~= s.take(n - 1));
        assert(s.take(n as int).last() == s[n - 1]);
    } else {
        assert(s.take(0).filter(ok) =~= Seq::<HexCoord>::empty());
    }
}

/// Whoever goes by the id of a battalion bears that id and is the first to.
pub proof fn law_a_namesake_bears_the_id(units: Seq<BattalionUnit>, i: int)
    requires
        0 <= i < units.len() <= usize::MAX,
    ensures
        bears(units, units[i].id, namesake(units, i) as int),
{
    crate::pick::law_first_where(units, |u: BattalionUnit| u.id == units[i].id);
}

} // verus!
