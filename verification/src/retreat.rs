//! The disordered retreat of a broken battalion.
//!
//! A rout follows a real route: the shortest one, over passable hexes that no
//! other battalion holds, to the ring of hexes outside the contested province,
//! or, where no such ring can be reached, to the side's own edge.
use vstd::prelude::*;
use crate::grid::{full_compass, law_exits_are_the_passable_neighbours, lemma_hexes_fit, HexGrid, HexMarks};
use crate::hex::{hex_distance, max_int, HexCoord, HexDirection};
use crate::pick::{first_where, law_first_where, law_winner_matches, those_where, winner};
use crate::unit::{BattalionUnit, Side, UnitState};

verus! {

/// The two ways off a battle, in the order in which a rout prefers them.
#[derive(Debug, Clone, Copy, PartialEq, Eq, Structural)]
pub enum WayOff {
    /// A passable hex outside the contested province.
    OutOfBounds,
    /// The side's own deployment edge.
    OwnEdge,
}

/// The index of the battalion with an id.
pub open spec fn unit_index(units: Seq<BattalionUnit>, id: usize) -> Option<int> {
    first_where(units, |u: BattalionUnit| u.id == id)
}

/// Which battalion goes by the id of battalion `i`: the first that has it.
pub open spec fn namesake(units: Seq<BattalionUnit>, i: int) -> usize {
    match unit_index(units, units[i].id) {
        Some(k) => k as usize,
        None => i as usize,
    }
}

/// The index of the battalion with an id.
pub fn find_unit(units: &[BattalionUnit], id: usize) -> (found: Option<usize>)
    ensures
        match found {
            Some(i) => unit_index(units@, id) == Some(i as int) && i < units@.len() && units@[i as int].id
                == id,
            None => unit_index(units@, id) is None,
        },
{
    let ghost ok = |u: BattalionUnit| u.id == id;
    let mut i: usize = 0;
    while i < units.len()
        invariant
            i <= units@.len(),
            ok == (|u: BattalionUnit| u.id == id),
            forall|j: int| 0 <= j < i ==> !ok(#[trigger] units@[j]),
        decreases units@.len() - i,
    {
        if units[i].id == id {
            proof {
                law_first_where(units@, ok);
                assert(ok(units@[i as int]));
            }
            return Some(i);
        }
        i += 1;
    }
    proof {
        law_first_where(units@, ok);
    }
    None
}

/// Which battalion goes by the id of battalion `i`.
pub fn find_namesake(units: &[BattalionUnit], i: usize) -> (k: usize)
    requires
        i < units@.len(),
    ensures
        k == namesake(units@, i as int),
        k < units@.len(),
{
    match find_unit(units, units[i].id) {
        Some(k) => k,
        None => i,
    }
}

/// The hex is an eastern rim hex of a zone: its east neighbour lies outside.
pub open spec fn on_rim(zone: Seq<HexCoord>, h: HexCoord) -> bool {
    !exists|e: HexCoord| #[trigger] zone.contains(e) && e.q == h.q + 1 && e.r == h.r
}

/// The eastern rim of a zone.
pub open spec fn eastern_rim(zone: Seq<HexCoord>) -> Seq<HexCoord> {
    those_where(zone, |h: HexCoord| on_rim(zone, h))
}

/// The rim that the defender routs to: that of its own zone, where the battle
/// has zones.
pub open spec fn rim_of(zones: Option<(&[HexCoord], &[HexCoord])>) -> Seq<HexCoord> {
    match zones {
        Some((_, d)) => eastern_rim(d@),
        None => Seq::empty(),
    }
}

/// The least distance from `h` to a hex of the list.
pub open spec fn nearest_hex(s: Seq<HexCoord>, h: HexCoord) -> Option<int>
    decreases s.len(),
{
    if s.len() == 0 {
        None
    } else {
        let d = hex_distance(h, s.last());
        match nearest_hex(s.drop_last(), h) {
            Some(m) => Some(if d < m {
                d
            } else {
                m
            }),
            None => Some(d),
        }
    }
}

/// How far `h` is from the map edge that faces a direction.
pub open spec fn edge_gap(g: &HexGrid, d: HexDirection, h: HexCoord) -> int {
    match d {
        HexDirection::W => h.q as int,
        HexDirection::E => g.columns() - 1 - h.q,
        HexDirection::NW | HexDirection::NE => h.r as int,
        HexDirection::SW | HexDirection::SE => g.rows() - 1 - h.r,
    }
}

/// The least gap to one of the edges; without edges there is none.
pub open spec fn least_gap(g: &HexGrid, dirs: Seq<HexDirection>, h: HexCoord) -> Option<int>
    decreases dirs.len(),
{
    if dirs.len() == 0 {
        None
    } else {
        let d = edge_gap(g, dirs.last(), h);
        match least_gap(g, dirs.drop_last(), h) {
            Some(m) => Some(if d < m {
                d
            } else {
                m
            }),
            None => Some(d),
        }
    }
}

/// How far `h` is from the side's own deployment edge: for the defender the
/// rim of its zone, or else the far eastern map edge; for the attacker the
/// nearest of its entry edges, by default the western one.
pub open spec fn own_edge_gap(g: &HexGrid, side: Side, rim: Seq<HexCoord>, h: HexCoord) -> int {
    match side {
        Side::Defender => match nearest_hex(rim, h) {
            Some(m) => m,
            None => max_int(g.columns() - 1 - h.q, 0),
        },
        Side::Attacker => match least_gap(g, g.entries(), h) {
            Some(m) => max_int(m, 0),
            None => max_int(h.q as int, 0),
        },
    }
}

/// No other battalion holds the hex.
pub open spec fn vacant(units: Seq<BattalionUnit>, id: usize, h: HexCoord) -> bool {
    forall|i: int|
        0 <= i < units.len() ==> !((#[trigger] units[i]).id != id && units[i].position == h
            && units[i].targetable())
}

/// The hexes that the battalion `id` may enter: passable and vacant.
pub open spec fn open_to(g: &HexGrid, units: Seq<BattalionUnit>, id: usize) -> spec_fn(HexCoord) -> bool {
    |h: HexCoord| g.open_ground(h) && vacant(units, id, h)
}

/// The hexes where a way off the battle is reached.
pub open spec fn exit_hexes(g: &HexGrid, side: Side, rim: Seq<HexCoord>, way: WayOff) -> spec_fn(
    HexCoord,
) -> bool {
    |h: HexCoord|
        match way {
            WayOff::OutOfBounds => g.open_ground(h) && g.out_of_bounds_at(h),
            WayOff::OwnEdge => own_edge_gap(g, side, rim, h) == 0,
        }
}

/// The hexes lead away from `start`, each one step on from the last, over free
/// hexes only and never back through `start`.
pub open spec fn is_route(
    g: &HexGrid,
    start: HexCoord,
    free: spec_fn(HexCoord) -> bool,
    p: Seq<HexCoord>,
) -> bool {
    &&& p.len() > 0
    &&& g.exits(start).contains(p[0])
    &&& forall|i: int| 0 <= i < p.len() ==> free(#[trigger] p[i]) && p[i] != start
    &&& forall|i: int, j: int|
        0 <= i && j == i + 1 && j < p.len() ==> g.exits(#[trigger] p[i]).contains(#[trigger] p[j])
}

/// A route that ends at a goal.
pub open spec fn leads(
    g: &HexGrid,
    start: HexCoord,
    free: spec_fn(HexCoord) -> bool,
    goal: spec_fn(HexCoord) -> bool,
    p: Seq<HexCoord>,
) -> bool {
    is_route(g, start, free, p) && goal(p.last())
}

/// Route `p` is shorter than `q`, or as short and leaves by an exit that is
/// listed no later.
pub open spec fn no_worse(exits: Seq<HexCoord>, p: Seq<HexCoord>, q: Seq<HexCoord>) -> bool {
    p.len() < q.len() || (p.len() == q.len() && exits.index_of(p[0]) <= exits.index_of(q[0]))
}

/// A route to a goal than which none is better.
pub open spec fn is_best_route(
    g: &HexGrid,
    start: HexCoord,
    free: spec_fn(HexCoord) -> bool,
    goal: spec_fn(HexCoord) -> bool,
    p: Seq<HexCoord>,
) -> bool {
    &&& leads(g, start, free, goal, p)
    &&& forall|q: Seq<HexCoord>|
        #[trigger] leads(g, start, free, goal, q) ==> no_worse(g.exits(start), p, q)
}

/// The first hex of the best route to a goal, if there is a route.
#[verifier::opaque]
pub open spec fn first_step(
    g: &HexGrid,
    start: HexCoord,
    free: spec_fn(HexCoord) -> bool,
    goal: spec_fn(HexCoord) -> bool,
) -> Option<HexCoord> {
    if exists|p: Seq<HexCoord>| is_best_route(g, start, free, goal, p) {
        let p = choose|p: Seq<HexCoord>| is_best_route(g, start, free, goal, p);
        Some(p[0])
    } else {
        None
    }
}

/// The step of a rout towards its way off the battle: none where it stands on
/// a way off already; else to the nearest out-of-bounds hex, or, where no
/// out-of-bounds hex can be reached, to the own edge.
pub open spec fn rout_step(g: &HexGrid, units: Seq<BattalionUnit>, i: int, rim: Seq<HexCoord>) -> Option<
    HexCoord,
> {
    let u = units[i];
    let ring = exit_hexes(g, u.side, rim, WayOff::OutOfBounds);
    let edge = exit_hexes(g, u.side, rim, WayOff::OwnEdge);
    let free = open_to(g, units, u.id);
    if ring(u.position) || edge(u.position) {
        Some(u.position)
    } else {
        match first_step(g, u.position, free, ring) {
            Some(h) => Some(h),
            None => first_step(g, u.position, free, edge),
        }
    }
}

/// How far the nearest combat-effective enemy of `side` is from `h`.
pub open spec fn enemy_gap(units: Seq<BattalionUnit>, side: Side, id: usize, h: HexCoord) -> Option<int>
    decreases units.len(),
{
    if units.len() == 0 {
        None
    } else {
        let rest = enemy_gap(units.drop_last(), side, id, h);
        let u = units.last();
        if u.id != id && u.side != side && u.effective() {
            let d = hex_distance(h, u.position);
            match rest {
                Some(m) => Some(if d < m {
                    d
                } else {
                    m
                }),
                None => Some(d),
            }
        } else {
            rest
        }
    }
}

/// The weight of a hex of enemy distance against a hex of home distance.
pub const ENEMY_WEIGHT: i64 = 1024;

/// The largest weighted enemy distance.
pub const ENEMY_CEILING: i64 = 0x7fff_ffff;

/// How unsafe a hex is: towards the own edge, its distance from that edge;
/// else first the nearness of the enemy and then the distance from the edge.
pub open spec fn danger(
    g: &HexGrid,
    units: Seq<BattalionUnit>,
    side: Side,
    id: usize,
    toward: bool,
    rim: Seq<HexCoord>,
    h: HexCoord,
) -> int {
    let home = own_edge_gap(g, side, rim, h);
    if toward {
        home
    } else {
        match enemy_gap(units, side, id, h) {
            Some(d) => home - if d * ENEMY_WEIGHT < ENEMY_CEILING {
                d * ENEMY_WEIGHT
            } else {
                ENEMY_CEILING as int
            },
            None => home - ENEMY_CEILING,
        }
    }
}

/// The safest free hex one step away, if it is safer than where the battalion
/// stands; of equally safe hexes the one that is listed first.
pub open spec fn safer_step(
    g: &HexGrid,
    units: Seq<BattalionUnit>,
    i: int,
    toward: bool,
    rim: Seq<HexCoord>,
) -> Option<HexCoord> {
    let u = units[i];
    let unsafety = |h: HexCoord| danger(g, units, u.side, u.id, toward, rim, h);
    let exits = g.exits(u.position);
    match winner(
        exits,
        |h: HexCoord| vacant(units, u.id, h) && unsafety(h) < unsafety(u.position),
        |a: HexCoord, b: HexCoord| unsafety(a) < unsafety(b),
    ) {
        Some(k) => Some(exits[k]),
        None => None,
    }
}

/// The battalion after a step to `h`: one that steps onto its own edge while
/// it makes for it withdraws.
pub open spec fn stepped(
    g: &HexGrid,
    u: BattalionUnit,
    toward: bool,
    rim: Seq<HexCoord>,
    h: HexCoord,
) -> BattalionUnit {
    BattalionUnit {
        position: h,
        state: if toward && own_edge_gap(g, u.side, rim, h) == 0 {
            UnitState::Withdrawn
        } else {
            u.state
        },
        ..u
    }
}

/// What the battalion `i` becomes by one retreat step, if it has one: a
/// battalion that holds no hex has none; a rout follows its route off the
/// battle, and steps to safer ground where it has no route.
pub open spec fn retreated(
    g: &HexGrid,
    units: Seq<BattalionUnit>,
    i: int,
    toward: bool,
    rim: Seq<HexCoord>,
) -> Option<BattalionUnit> {
    let u = units[i];
    if !u.targetable() {
        None
    } else if toward && rout_step(g, units, i, rim) is Some {
        Some(stepped(g, u, toward, rim, rout_step(g, units, i, rim)->0))
    } else {
        match safer_step(g, units, i, toward, rim) {
            Some(h) => Some(stepped(g, u, toward, rim, h)),
            None => None,
        }
    }
}

/// The battalions after one retreat step of the battalion `id`, and whether
/// it moved or withdrew.
pub open spec fn retreat_result(
    g: &HexGrid,
    units: Seq<BattalionUnit>,
    id: usize,
    toward: bool,
    rim: Seq<HexCoord>,
) -> (Seq<BattalionUnit>, bool) {
    match unit_index(units, id) {
        Some(i) => match retreated(g, units, i, toward, rim) {
            Some(u) => (units.update(i, u), true),
            None => (units, false),
        },
        None => (units, false),
    }
}

/// The eastern rim of a zone.
pub(crate) fn rim_hexes(zone: &[HexCoord]) -> (rim: Vec<HexCoord>)
    ensures
        rim@ == eastern_rim(zone@),
{
    let ghost ok = |h: HexCoord| on_rim(zone@, h);
    let mut rim: Vec<HexCoord> = Vec::new();
    let mut i: usize = 0;
    assert(zone@.take(0) =~= Seq::<HexCoord>::empty());
    while i < zone.len()
        invariant
            i <= zone@.len(),
            ok == (|h: HexCoord| on_rim(zone@, h)),
            rim@ == those_where(zone@.take(i as int), ok),
        decreases zone@.len() - i,
    {
        let h = zone[i];
        let mut found = false;
        let mut j: usize = 0;
        while j < zone.len()
            invariant
                j <= zone@.len(),
                found == exists|k: int|
                    0 <= k < j && (#[trigger] zone@[k]).q == h.q + 1 && zone@[k].r == h.r,
            decreases zone@.len() - j,
        {
            let e = zone[j];
            if e.q as i64 == h.q as i64 + 1 && e.r == h.r {
                found = true;
            }
            j += 1;
        }
        proof {
            if found {
                let k = choose|k: int|
                    0 <= k < zone@.len() && (#[trigger] zone@[k]).q == h.q + 1 && zone@[k].r == h.r;
                assert(zone@.contains(zone@[k]));
            }
            assert(found == !on_rim(zone@, h));
            assert(zone@.take(i + 1).drop_last() =~= zone@.take(i as int));
        }
        if !found {
            rim.push(h);
        }
        i += 1;
    }
    assert(zone@.take(zone@.len() as int) =~= zone@);
    rim
}

/// The least distance from `h` to a hex of the list.
pub(crate) fn nearest_of(s: &Vec<HexCoord>, h: HexCoord) -> (m: Option<i64>)
    ensures
        match m {
            Some(d) => nearest_hex(s@, h) == Some(d as int),
            None => nearest_hex(s@, h) is None,
        },
        m matches Some(d) ==> 0 <= d <= 0x2_0000_0000,
{
    let mut m: Option<i64> = None;
    let mut i: usize = 0;
    assert(s@.take(0) =~= Seq::<HexCoord>::empty());
    while i < s.len()
        invariant
            i <= s@.len(),
            match m {
                Some(d) => nearest_hex(s@.take(i as int), h) == Some(d as int),
                None => nearest_hex(s@.take(i as int), h) is None,
            },
            m matches Some(d) ==> 0 <= d <= 0x2_0000_0000,
        decreases s@.len() - i,
    {
        assert(s@.take(i + 1).drop_last() =~= s@.take(i as int));
        let d: i64 = h.distance(s[i]);
        m = match m {
            Some(b) => Some(if d < b {
                d
            } else {
                b
            }),
            None => Some(d),
        };
        i += 1;
    }
    assert(s@.take(s@.len() as int) =~= s@);
    m
}

/// How far `h` is from the side's own deployment edge.
fn own_edge_distance(g: &HexGrid, side: Side, h: HexCoord, rim: &Vec<HexCoord>) -> (d: i64)
    ensures
        d == own_edge_gap(g, side, rim@, h),
        0 <= d <= 0x2_0000_0000,
{
    let width: i64 = g.width() as i64;
    let height: i64 = g.height() as i64;
    let q: i64 = h.q as i64;
    let r: i64 = h.r as i64;
    match side {
        Side::Defender => match nearest_of(rim, h) {
            Some(m) => m,
            None => {
                let m: i64 = width - 1 - q;
                if m < 0 {
                    0
                } else {
                    m
                }
            },
        },
        Side::Attacker => {
            let dirs = g.attack_dirs();
            let mut m: Option<i64> = None;
            let mut i: usize = 0;
            assert(dirs@.take(0) =~= Seq::<HexDirection>::empty());
            while i < dirs.len()
                invariant
                    i <= dirs@.len(),
                    width == g.columns(),
                    height == g.rows(),
                    width <= i32::MAX,
                    height <= i32::MAX,
                    q == h.q,
                    r == h.r,
                    match m {
                        Some(d) => least_gap(g, dirs@.take(i as int), h) == Some(d as int),
                        None => least_gap(g, dirs@.take(i as int), h) is None,
                    },
                    m matches Some(d) ==> d <= 0x1_0000_0000,
                decreases dirs@.len() - i,
            {
                assert(dirs@.take(i + 1).drop_last() =~= dirs@.take(i as int));
                let d: i64 = match dirs[i] {
                    HexDirection::W => q,
                    HexDirection::E => width - 1 - q,
                    HexDirection::NW | HexDirection::NE => r,
                    HexDirection::SW | HexDirection::SE => height - 1 - r,
                };
                m = match m {
                    Some(b) => Some(if d < b {
                        d
                    } else {
                        b
                    }),
                    None => Some(d),
                };
                i += 1;
            }
            assert(dirs@.take(dirs@.len() as int) =~= dirs@);
            let gap: i64 = match m {
                Some(b) => b,
                None => q,
            };
            if gap < 0 {
                0
            } else {
                gap
            }
        },
    }
}

fn is_vacant(units: &Vec<BattalionUnit>, id: usize, h: HexCoord) -> (b: bool)
    ensures
        b == vacant(units@, id, h),
{
    let mut i: usize = 0;
    while i < units.len()
        invariant
            i <= units@.len(),
            forall|j: int|
                0 <= j < i ==> !((#[trigger] units@[j]).id != id && units@[j].position == h
                    && units@[j].targetable()),
        decreases units@.len() - i,
    {
        if units[i].id != id && units[i].position == h && units[i].is_targetable() {
            return false;
        }
        i += 1;
    }
    true
}

fn at_exit(g: &HexGrid, side: Side, rim: &Vec<HexCoord>, way: WayOff, h: HexCoord) -> (b: bool)
    ensures
        b == exit_hexes(g, side, rim@, way)(h),
{
    match way {
        WayOff::OutOfBounds => g.is_open(h) && g.is_out_of_bounds(h),
        WayOff::OwnEdge => own_edge_distance(g, side, h, rim) == 0,
    }
}

/// The place of a queued hex in the search: how long its route is, and then
/// how late its first exit is listed.
spec fn key_le(len_a: nat, label_a: int, len_b: nat, label_b: int) -> bool {
    len_a < len_b || (len_a == len_b && label_a <= label_b)
}

/// The search has queued hexes with a route to each, best routes first.
spec fn queue_ok(
    g: &HexGrid,
    start: HexCoord,
    free: spec_fn(HexCoord) -> bool,
    queue: Seq<(HexCoord, usize)>,
    routes: Seq<Seq<HexCoord>>,
) -> bool {
    let exits = g.exits(start);
    &&& routes.len() == queue.len()
    &&& forall|i: int|
        0 <= i < queue.len() ==> {
            &&& is_route(g, start, free, #[trigger] routes[i])
            &&& routes[i].last() == queue[i].0
            &&& queue[i].1 < exits.len()
            &&& routes[i][0] == exits[queue[i].1 as int]
        }
    &&& forall|i: int, j: int|
        0 <= i < j < queue.len() ==> (#[trigger] queue[i]).0 != (#[trigger] queue[j]).0
    &&& forall|i: int, j: int|
        0 <= i <= j < queue.len() ==> key_le(
            routes[i].len(),
            (#[trigger] queue[i]).1 as int,
            routes[j].len(),
            (#[trigger] queue[j]).1 as int,
        )
}

/// Some queued hex is `n`, with a route no worse than the given one.
spec fn queued(
    queue: Seq<(HexCoord, usize)>,
    routes: Seq<Seq<HexCoord>>,
    n: HexCoord,
    len: nat,
    label: int,
) -> bool {
    exists|j: int|
        0 <= j < queue.len() && (#[trigger] queue[j]).0 == n && key_le(
            routes[j].len(),
            queue[j].1 as int,
            len,
            label,
        )
}

/// The free exits of the start are queued.
spec fn starts_queued(
    g: &HexGrid,
    start: HexCoord,
    free: spec_fn(HexCoord) -> bool,
    queue: Seq<(HexCoord, usize)>,
    routes: Seq<Seq<HexCoord>>,
    upto: int,
) -> bool {
    let exits = g.exits(start);
    forall|k: int|
        0 <= k < upto && free(#[trigger] exits[k]) && exits[k] != start ==> queued(
            queue,
            routes,
            exits[k],
            1,
            k,
        )
}

/// The free exits of a queued hex are queued, as far as they were looked at.
spec fn exits_queued(
    g: &HexGrid,
    start: HexCoord,
    free: spec_fn(HexCoord) -> bool,
    queue: Seq<(HexCoord, usize)>,
    routes: Seq<Seq<HexCoord>>,
    i: int,
    upto: int,
) -> bool {
    let exits = g.exits(queue[i].0);
    forall|k: int|
        0 <= k < upto && free(#[trigger] exits[k]) && exits[k] != start ==> queued(
            queue,
            routes,
            exits[k],
            routes[i].len() + 1,
            queue[i].1 as int,
        )
}

/// The first `head` queued hexes are no goals and their free exits are queued.
spec fn searched(
    g: &HexGrid,
    start: HexCoord,
    free: spec_fn(HexCoord) -> bool,
    goal: spec_fn(HexCoord) -> bool,
    queue: Seq<(HexCoord, usize)>,
    routes: Seq<Seq<HexCoord>>,
    head: int,
) -> bool {
    &&& queue_ok(g, start, free, queue, routes)
    &&& 0 <= head <= queue.len()
    &&& starts_queued(g, start, free, queue, routes, g.exits(start).len() as int)
    &&& forall|i: int|
        #![trigger queue[i]]
        0 <= i < head ==> !goal(queue[i].0) && exits_queued(
            g,
            start,
            free,
            queue,
            routes,
            i,
            g.exits(queue[i].0).len() as int,
        )
}

/// No queued hex lies more than a step beyond the one that is looked at.
spec fn within_a_step(queue: Seq<(HexCoord, usize)>, routes: Seq<Seq<HexCoord>>, head: int) -> bool {
    forall|j: int|
        0 <= j < queue.len() ==> key_le(
            routes[j].len(),
            (#[trigger] queue[j]).1 as int,
            routes[head].len() + 1,
            queue[head].1 as int,
        )
}

proof fn lemma_queued_grows(
    queue: Seq<(HexCoord, usize)>,
    routes: Seq<Seq<HexCoord>>,
    item: (HexCoord, usize),
    route: Seq<HexCoord>,
    n: HexCoord,
    len: nat,
    label: int,
)
    requires
        queue.len() == routes.len(),
        queued(queue, routes, n, len, label),
    ensures
        queued(queue.push(item), routes.push(route), n, len, label),
{
    let j = choose|j: int|
        0 <= j < queue.len() && (#[trigger] queue[j]).0 == n && key_le(
            routes[j].len(),
            queue[j].1 as int,
            len,
            label,
        );
    assert(queue.push(item)[j] == queue[j]);
    assert(routes.push(route)[j] == routes[j]);
}

/// A route that is one step longer is a route.
proof fn lemma_route_grows(
    g: &HexGrid,
    start: HexCoord,
    free: spec_fn(HexCoord) -> bool,
    p: Seq<HexCoord>,
    n: HexCoord,
)
    requires
        is_route(g, start, free, p),
        g.exits(p.last()).contains(n),
        free(n),
        n != start,
    ensures
        is_route(g, start, free, p.push(n)),
{
    let q = p.push(n);
    assert(q[0] == p[0]);
    assert forall|i: int| 0 <= i < q.len() implies free(#[trigger] q[i]) && q[i] != start by {
        if i < p.len() {
            assert(q[i] == p[i]);
        }
    }
    assert forall|i: int, j: int| 0 <= i && j == i + 1 && j < q.len() implies g.exits(
        #[trigger] q[i],
    ).contains(#[trigger] q[j]) by {
        assert(q[i] == p[i]);
        if j < p.len() {
            assert(q[j] == p[j]);
        } else {
            assert(p[i] == p.last());
        }
    }
}

/// Every route to a goal is no better than the queued hex that is to be looked
/// at next; where none is left to look at, there is no such route.
proof fn lemma_next_is_best(
    g: &HexGrid,
    start: HexCoord,
    free: spec_fn(HexCoord) -> bool,
    goal: spec_fn(HexCoord) -> bool,
    queue: Seq<(HexCoord, usize)>,
    routes: Seq<Seq<HexCoord>>,
    head: int,
    q: Seq<HexCoord>,
    m: int,
)
    requires
        full_compass(g.order()),
        searched(g, start, free, goal, queue, routes, head),
        leads(g, start, free, goal, q),
        0 <= m < q.len(),
        queued(queue, routes, q[m], (m + 1) as nat, g.exits(start).index_of(q[0])),
    ensures
        head < queue.len(),
        key_le(
            routes[head].len(),
            queue[head].1 as int,
            q.len(),
            g.exits(start).index_of(q[0]),
        ),
    decreases q.len() - m,
{
    let label = g.exits(start).index_of(q[0]);
    let j = choose|j: int|
        0 <= j < queue.len() && (#[trigger] queue[j]).0 == q[m] && key_le(
            routes[j].len(),
            queue[j].1 as int,
            (m + 1) as nat,
            label,
        );
    if j >= head {
        assert(key_le(
            routes[head].len(),
            queue[head].1 as int,
            routes[j].len(),
            queue[j].1 as int,
        ));
    } else {
        assert(!goal(queue[j].0));
        assert(m + 1 < q.len());
        let exits = g.exits(q[m]);
        assert(exits.contains(q[m + 1]));
        let k = choose|k: int| 0 <= k < exits.len() && exits[k] == q[m + 1];
        assert(free(q[m + 1]) && q[m + 1] != start);
        assert(exits_queued(g, start, free, queue, routes, j, exits.len() as int));
        assert(free(exits[k]) && exits[k] != start);
        assert(queued(queue, routes, exits[k], routes[j].len() + 1, queue[j].1 as int));
        let i = choose|i: int|
            0 <= i < queue.len() && (#[trigger] queue[i]).0 == q[m + 1] && key_le(
                routes[i].len(),
                queue[i].1 as int,
                routes[j].len() + 1,
                queue[j].1 as int,
            );
        assert(queue[i].0 == q[m + 1] && key_le(
            routes[i].len(),
            queue[i].1 as int,
            (m + 2) as nat,
            label,
        ));
        lemma_next_is_best(g, start, free, goal, queue, routes, head, q, m + 1);
    }
}

proof fn lemma_route_from_start(
    g: &HexGrid,
    start: HexCoord,
    free: spec_fn(HexCoord) -> bool,
    goal: spec_fn(HexCoord) -> bool,
    queue: Seq<(HexCoord, usize)>,
    routes: Seq<Seq<HexCoord>>,
    head: int,
    q: Seq<HexCoord>,
)
    requires
        full_compass(g.order()),
        searched(g, start, free, goal, queue, routes, head),
        leads(g, start, free, goal, q),
    ensures
        head < queue.len(),
        key_le(
            routes[head].len(),
            queue[head].1 as int,
            q.len(),
            g.exits(start).index_of(q[0]),
        ),
{
    let exits = g.exits(start);
    let k = exits.index_of(q[0]);
    assert(exits.contains(q[0]));
    assert(0 <= k < exits.len() && exits[k] == q[0]);
    assert(free(q[0]) && q[0] != start);
    assert(queued(queue, routes, exits[k], 1, k));
    lemma_next_is_best(g, start, free, goal, queue, routes, head, q, 0);
}

/// Two best routes leave by the same exit.
proof fn lemma_first_step(
    g: &HexGrid,
    start: HexCoord,
    free: spec_fn(HexCoord) -> bool,
    goal: spec_fn(HexCoord) -> bool,
    p: Seq<HexCoord>,
)
    requires
        is_best_route(g, start, free, goal, p),
    ensures
        first_step(g, start, free, goal) == Some(p[0]),
{
    reveal(first_step);
    let q = choose|q: Seq<HexCoord>| is_best_route(g, start, free, goal, q);
    let exits = g.exits(start);
    assert(leads(g, start, free, goal, p) && leads(g, start, free, goal, q));
    assert(exits.contains(p[0]) && exits.contains(q[0]));
    assert(exits[exits.index_of(p[0])] == p[0]);
    assert(exits[exits.index_of(q[0])] == q[0]);
}

/// The search state after one more hex was queued.
proof fn lemma_push(
    g: &HexGrid,
    start: HexCoord,
    free: spec_fn(HexCoord) -> bool,
    queue: Seq<(HexCoord, usize)>,
    routes: Seq<Seq<HexCoord>>,
    item: (HexCoord, usize),
    route: Seq<HexCoord>,
)
    requires
        queue_ok(g, start, free, queue, routes),
        is_route(g, start, free, route),
        route.last() == item.0,
        item.1 < g.exits(start).len(),
        route[0] == g.exits(start)[item.1 as int],
        forall|i: int| 0 <= i < queue.len() ==> (#[trigger] queue[i]).0 != item.0,
        forall|i: int|
            0 <= i < queue.len() ==> key_le(
                routes[i].len(),
                (#[trigger] queue[i]).1 as int,
                route.len(),
                item.1 as int,
            ),
    ensures
        queue_ok(g, start, free, queue.push(item), routes.push(route)),
        queued(queue.push(item), routes.push(route), item.0, route.len(), item.1 as int),
{
    let q2 = queue.push(item);
    let r2 = routes.push(route);
    assert forall|i: int| 0 <= i < q2.len() implies {
        &&& is_route(g, start, free, #[trigger] r2[i])
        &&& r2[i].last() == q2[i].0
        &&& q2[i].1 < g.exits(start).len()
        &&& r2[i][0] == g.exits(start)[q2[i].1 as int]
    } by {
        if i < queue.len() {
            assert(r2[i] == routes[i] && q2[i] == queue[i]);
        }
    }
    assert forall|i: int, j: int| 0 <= i <= j < q2.len() implies key_le(
        r2[i].len(),
        (#[trigger] q2[i]).1 as int,
        r2[j].len(),
        (#[trigger] q2[j]).1 as int,
    ) by {
        if i < queue.len() {
            assert(q2[i] == queue[i]);
        }
        if j < queue.len() {
            assert(q2[j] == queue[j]);
        }
    }
    assert(q2[queue.len() as int] == item);
}

/// The first hex of the best route from a battalion's hex to a way off the
/// battle.
#[verifier::rlimit(40)]
fn search_way(
    g: &HexGrid,
    units: &Vec<BattalionUnit>,
    idx: usize,
    rim: &Vec<HexCoord>,
    way: WayOff,
) -> (step: Option<HexCoord>)
    requires
        idx < units@.len(),
    ensures
        step == first_step(
            g,
            units@[idx as int].position,
            open_to(g, units@, units@[idx as int].id),
            exit_hexes(g, units@[idx as int].side, rim@, way),
        ),
{
    let start = units[idx].position;
    let id = units[idx].id;
    let side = units[idx].side;
    let ghost free = open_to(g, units@, id);
    let ghost goal = exit_hexes(g, side, rim@, way);
    let starts: Vec<HexCoord> = g.passable_neighbors(start);
    let mut seen = HexMarks::new(g);
    let mut queue: Vec<(HexCoord, usize)> = Vec::new();
    let ghost mut routes: Seq<Seq<HexCoord>> = Seq::empty();
    let mut k: usize = 0;
    while k < starts.len()
        invariant
            k <= starts@.len() <= 6,
            starts@ == g.exits(start),
            full_compass(g.order()),
            free == open_to(g, units@, id),
            seen.fits(g),
            queue@.len() <= k,
            queue_ok(g, start, free, queue@, routes),
            starts_queued(g, start, free, queue@, routes, k as int),
            forall|h: HexCoord|
                #[trigger] seen.holds(h) <==> exists|i: int| 0 <= i < queue@.len() && (#[trigger] queue@[i]).0 == h,
            forall|i: int| 0 <= i < queue@.len() ==> (#[trigger] queue@[i]).1 < k && routes[i].len() == 1,
        decreases starts@.len() - k,
    {
        let n = starts[k];
        let ghost before = queue@;
        let ghost routes_before = routes;
        proof {
            assert(g.exits(start).contains(n));
            law_exits_are_the_passable_neighbours(g, start, n);
        }
        if n != start && !seen.has(g, n) && is_vacant(units, id, n) {
            let ghost route = seq![n];
            proof {
                assert(free(n));
                assert(is_route(g, start, free, route));
                lemma_push(g, start, free, queue@, routes, (n, k), route);
                routes = routes.push(route);
            }
            queue.push((n, k));
            seen.add(g, n);
            proof {
                assert forall|h: HexCoord| #[trigger] seen.holds(h) <==> exists|i: int|
                    0 <= i < queue@.len() && (#[trigger] queue@[i]).0 == h by {
                    if exists|i: int| 0 <= i < before.len() && (#[trigger] before[i]).0 == h {
                        let i = choose|i: int| 0 <= i < before.len() && (#[trigger] before[i]).0 == h;
                        assert(queue@[i].0 == h);
                    }
                    if h == n {
                        assert(queue@[before.len() as int].0 == h);
                    }
                    if exists|i: int| 0 <= i < queue@.len() && (#[trigger] queue@[i]).0 == h {
                        let i = choose|i: int| 0 <= i < queue@.len() && (#[trigger] queue@[i]).0 == h;
                        if i < before.len() {
                            assert(before[i].0 == h);
                        }
                    }
                }
                assert forall|c: int| 0 <= c < k + 1 && free(#[trigger] starts@[c]) && starts@[c] != start implies queued(
                    queue@,
                    routes,
                    starts@[c],
                    1,
                    c,
                ) by {
                    if c < k {
                        lemma_queued_grows(before, routes_before, (n, k), route, starts@[c], 1, c);
                    }
                }
            }
        } else {
            proof {
                if free(n) && n != start {
                    assert(seen.holds(n));
                    let i = choose|i: int| 0 <= i < queue@.len() && (#[trigger] queue@[i]).0 == n;
                    assert(key_le(routes[i].len(), queue@[i].1 as int, 1, k as int));
                    assert(queued(queue@, routes, n, 1, k as int));
                }
            }
        }
        k += 1;
    }
    let mut head: usize = 0;
    let ghost size = g.columns() * g.rows();
    proof {
        assert(searched(g, start, free, goal, queue@, routes, 0));
        lemma_queue_fits(g, start, free, queue@, routes, units@, id);
    }
    while head < queue.len()
        invariant
            head <= queue@.len() <= size,
            size == g.columns() * g.rows(),
            starts@ == g.exits(start),
            full_compass(g.order()),
            free == open_to(g, units@, id),
            goal == exit_hexes(g, side, rim@, way),
            seen.fits(g),
            searched(g, start, free, goal, queue@, routes, head as int),
            head < queue@.len() ==> within_a_step(queue@, routes, head as int),
            forall|h: HexCoord|
                #[trigger] seen.holds(h) <==> exists|i: int| 0 <= i < queue@.len() && (#[trigger] queue@[i]).0 == h,
            idx < units@.len(),
            start == units@[idx as int].position,
            id == units@[idx as int].id,
            side == units@[idx as int].side,
        decreases size - head,
    {
        let (h, label) = queue[head];
        if at_exit(g, side, rim, way, h) {
            proof {
                let p = routes[head as int];
                assert(leads(g, start, free, goal, p));
                assert forall|q: Seq<HexCoord>| #[trigger] leads(g, start, free, goal, q) implies no_worse(
                    g.exits(start),
                    p,
                    q,
                ) by {
                    lemma_route_from_start(g, start, free, goal, queue@, routes, head as int, q);
                    lemma_label(g, start, free, queue@, routes, head as int);
                }
                lemma_first_step(g, start, free, goal, p);
            }
            return Some(starts[label]);
        }
        let near: Vec<HexCoord> = g.passable_neighbors(h);
        let mut k: usize = 0;
        while k < near.len()
            invariant
                k <= near@.len() <= 6,
                near@ == g.exits(h),
                head < queue@.len(),
                queue@[head as int] == (h, label),
                full_compass(g.order()),
                free == open_to(g, units@, id),
                seen.fits(g),
                !goal(h),
                searched(g, start, free, goal, queue@, routes, head as int),
                within_a_step(queue@, routes, head as int),
                exits_queued(g, start, free, queue@, routes, head as int, k as int),
                forall|h: HexCoord|
                    #[trigger] seen.holds(h) <==> exists|i: int|
                        0 <= i < queue@.len() && (#[trigger] queue@[i]).0 == h,
            decreases near@.len() - k,
        {
            let n = near[k];
            let ghost before = queue@;
            let ghost routes_before = routes;
            proof {
                assert(g.exits(h).contains(n));
                law_exits_are_the_passable_neighbours(g, h, n);
            }
            if n != start && !seen.has(g, n) && is_vacant(units, id, n) {
                let ghost route = routes[head as int].push(n);
                proof {
                    assert(free(n));
                    assert(routes[head as int].last() == h);
                    lemma_route_grows(g, start, free, routes[head as int], n);
                    assert(route[0] == routes[head as int][0]);
                    lemma_push(g, start, free, queue@, routes, (n, label), route);
                    routes = routes.push(route);
                }
                queue.push((n, label));
                seen.add(g, n);
                proof {
                    lemma_search_grows(
                        g,
                        start,
                        free,
                        goal,
                        before,
                        routes_before,
                        head as int,
                        k as int,
                        (n, label),
                        route,
                    );
                    assert forall|x: HexCoord| #[trigger] seen.holds(x) <==> exists|i: int|
                        0 <= i < queue@.len() && (#[trigger] queue@[i]).0 == x by {
                        if exists|i: int| 0 <= i < before.len() && (#[trigger] before[i]).0 == x {
                            let i = choose|i: int| 0 <= i < before.len() && (#[trigger] before[i]).0 == x;
                            assert(queue@[i].0 == x);
                        }
                        if x == n {
                            assert(queue@[before.len() as int].0 == x);
                        }
                        if exists|i: int| 0 <= i < queue@.len() && (#[trigger] queue@[i]).0 == x {
                            let i = choose|i: int| 0 <= i < queue@.len() && (#[trigger] queue@[i]).0 == x;
                            if i < before.len() {
                                assert(before[i].0 == x);
                            }
                        }
                    }
                }
            } else {
                proof {
                    if free(n) && n != start {
                        assert(seen.holds(n));
                        let i = choose|i: int| 0 <= i < queue@.len() && (#[trigger] queue@[i]).0 == n;
                        assert(key_le(
                            routes[i].len(),
                            queue@[i].1 as int,
                            routes[head as int].len() + 1,
                            label as int,
                        ));
                        assert(queued(queue@, routes, n, routes[head as int].len() + 1, label as int));
                    }
                }
            }
            k += 1;
        }
        proof {
            lemma_queue_fits(g, start, free, queue@, routes, units@, id);
            if head + 1 < queue@.len() {
                let a = queue@[head as int];
                let b = queue@[head + 1];
                assert(key_le(
                    routes[head as int].len(),
                    a.1 as int,
                    routes[head + 1].len(),
                    b.1 as int,
                ));
                assert(within_a_step(queue@, routes, head + 1));
            }
        }
        head += 1;
    }
    proof {
        assert forall|q: Seq<HexCoord>| !(#[trigger] leads(g, start, free, goal, q)) by {
            if leads(g, start, free, goal, q) {
                lemma_route_from_start(g, start, free, goal, queue@, routes, head as int, q);
            }
        }
        assert forall|q: Seq<HexCoord>| !(#[trigger] is_best_route(g, start, free, goal, q)) by {}
        reveal(first_step);
    }
    None
}

/// The place of a queued hex's first exit in the list of exits.
proof fn lemma_label(
    g: &HexGrid,
    start: HexCoord,
    free: spec_fn(HexCoord) -> bool,
    queue: Seq<(HexCoord, usize)>,
    routes: Seq<Seq<HexCoord>>,
    i: int,
)
    requires
        full_compass(g.order()),
        queue_ok(g, start, free, queue, routes),
        0 <= i < queue.len(),
    ensures
        g.exits(start).index_of(routes[i][0]) == queue[i].1,
        routes[i][0] == g.exits(start)[queue[i].1 as int],
{
    let exits = g.exits(start);
    law_exits_are_the_passable_neighbours(g, start, start);
    assert(is_route(g, start, free, routes[i]));
    assert(exits.contains(routes[i][0]));
    assert(exits[exits.index_of(routes[i][0])] == exits[queue[i].1 as int]);
}

/// The queue never holds more hexes than the map.
proof fn lemma_queue_fits(
    g: &HexGrid,
    start: HexCoord,
    free: spec_fn(HexCoord) -> bool,
    queue: Seq<(HexCoord, usize)>,
    routes: Seq<Seq<HexCoord>>,
    units: Seq<BattalionUnit>,
    id: usize,
)
    requires
        free == open_to(g, units, id),
        queue_ok(g, start, free, queue, routes),
    ensures
        queue.len() <= g.columns() * g.rows(),
{
    let hexes = Seq::new(queue.len(), |i: int| queue[i].0);
    assert forall|i: int| 0 <= i < hexes.len() implies g.on_map(#[trigger] hexes[i]) by {
        assert(is_route(g, start, free, routes[i]));
        let p = routes[i];
        assert(free(p[p.len() - 1]));
    }
    assert forall|i: int, j: int| 0 <= i < hexes.len() && 0 <= j < hexes.len() && i != j implies hexes[i]
        != hexes[j] by {
        if i < j {
            assert(queue[i].0 != queue[j].0);
        } else {
            assert(queue[j].0 != queue[i].0);
        }
    }
    lemma_hexes_fit(g, hexes);
}

/// What was searched stays searched when a neighbour of the hex that is looked
/// at is queued.
proof fn lemma_search_grows(
    g: &HexGrid,
    start: HexCoord,
    free: spec_fn(HexCoord) -> bool,
    goal: spec_fn(HexCoord) -> bool,
    queue: Seq<(HexCoord, usize)>,
    routes: Seq<Seq<HexCoord>>,
    head: int,
    k: int,
    item: (HexCoord, usize),
    route: Seq<HexCoord>,
)
    requires
        searched(g, start, free, goal, queue, routes, head),
        within_a_step(queue, routes, head),
        head < queue.len(),
        0 <= k < g.exits(queue[head].0).len(),
        item.0 == g.exits(queue[head].0)[k],
        item.1 == queue[head].1,
        route.len() == routes[head].len() + 1,
        exits_queued(g, start, free, queue, routes, head, k),
        queue_ok(g, start, free, queue.push(item), routes.push(route)),
        queued(queue.push(item), routes.push(route), item.0, route.len(), item.1 as int),
    ensures
        searched(g, start, free, goal, queue.push(item), routes.push(route), head),
        within_a_step(queue.push(item), routes.push(route), head),
        exits_queued(g, start, free, queue.push(item), routes.push(route), head, k + 1),
{
    let q2 = queue.push(item);
    let r2 = routes.push(route);
    let exits = g.exits(start);
    assert(q2[head] == queue[head] && r2[head] == routes[head]);
    assert forall|c: int| 0 <= c < exits.len() && free(#[trigger] exits[c]) && exits[c] != start implies queued(
        q2,
        r2,
        exits[c],
        1,
        c,
    ) by {
        lemma_queued_grows(queue, routes, item, route, exits[c], 1, c);
    }
    assert forall|i: int| #![trigger q2[i]] 0 <= i < head implies !goal(q2[i].0) && exits_queued(
        g,
        start,
        free,
        q2,
        r2,
        i,
        g.exits(q2[i].0).len() as int,
    ) by {
        assert(q2[i] == queue[i] && r2[i] == routes[i]);
        let near = g.exits(queue[i].0);
        assert forall|c: int| 0 <= c < near.len() && free(#[trigger] near[c]) && near[c] != start implies queued(
            q2,
            r2,
            near[c],
            r2[i].len() + 1,
            q2[i].1 as int,
        ) by {
            lemma_queued_grows(
                queue,
                routes,
                item,
                route,
                near[c],
                routes[i].len() + 1,
                queue[i].1 as int,
            );
        }
    }
    let near = g.exits(queue[head].0);
    assert forall|c: int| 0 <= c < k + 1 && free(#[trigger] near[c]) && near[c] != start implies queued(
        q2,
        r2,
        near[c],
        r2[head].len() + 1,
        q2[head].1 as int,
    ) by {
        if c < k {
            lemma_queued_grows(
                queue,
                routes,
                item,
                route,
                near[c],
                routes[head].len() + 1,
                queue[head].1 as int,
            );
        }
    }
    assert forall|j: int| 0 <= j < q2.len() implies key_le(
        r2[j].len(),
        (#[trigger] q2[j]).1 as int,
        r2[head].len() + 1,
        q2[head].1 as int,
    ) by {
        if j < queue.len() {
            assert(q2[j] == queue[j]);
        }
    }
}

/// The step of a rout towards its way off the battle.
fn bfs_edge_step(g: &HexGrid, units: &Vec<BattalionUnit>, idx: usize, rim: &Vec<HexCoord>) -> (step: Option<
    HexCoord,
>)
    requires
        idx < units@.len(),
    ensures
        step == rout_step(g, units@, idx as int, rim@),
{
    let start = units[idx].position;
    let side = units[idx].side;
    if at_exit(g, side, rim, WayOff::OutOfBounds, start) || at_exit(g, side, rim, WayOff::OwnEdge, start) {
        return Some(start);
    }
    match search_way(g, units, idx, rim, WayOff::OutOfBounds) {
        Some(h) => Some(h),
        None => search_way(g, units, idx, rim, WayOff::OwnEdge),
    }
}

/// How far the nearest combat-effective enemy is.
fn nearest_enemy_distance(h: HexCoord, side: Side, id: usize, units: &Vec<BattalionUnit>) -> (m: Option<i64>)
    ensures
        match m {
            Some(d) => enemy_gap(units@, side, id, h) == Some(d as int),
            None => enemy_gap(units@, side, id, h) is None,
        },
        m matches Some(d) ==> 0 <= d <= 0x2_0000_0000,
{
    let mut m: Option<i64> = None;
    let mut i: usize = 0;
    assert(units@.take(0) =~= Seq::<BattalionUnit>::empty());
    while i < units.len()
        invariant
            i <= units@.len(),
            match m {
                Some(d) => enemy_gap(units@.take(i as int), side, id, h) == Some(d as int),
                None => enemy_gap(units@.take(i as int), side, id, h) is None,
            },
            m matches Some(d) ==> 0 <= d <= 0x2_0000_0000,
        decreases units@.len() - i,
    {
        assert(units@.take(i + 1).drop_last() =~= units@.take(i as int));
        if units[i].id != id && units[i].side != side && units[i].is_combat_effective() {
            let d: i64 = h.distance(units[i].position);
            m = match m {
                Some(b) => Some(if d < b {
                    d
                } else {
                    b
                }),
                None => Some(d),
            };
        }
        i += 1;
    }
    assert(units@.take(units@.len() as int) =~= units@);
    m
}

fn danger_at(g: &HexGrid, units: &Vec<BattalionUnit>, idx: usize, toward: bool, rim: &Vec<HexCoord>, h: HexCoord) -> (d: i64)
    requires
        idx < units@.len(),
    ensures
        d == danger(g, units@, units@[idx as int].side, units@[idx as int].id, toward, rim@, h),
{
    let home: i64 = own_edge_distance(g, units[idx].side, h, rim);
    if toward {
        home
    } else {
        match nearest_enemy_distance(h, units[idx].side, units[idx].id, units) {
            Some(d) => home - if d * ENEMY_WEIGHT < ENEMY_CEILING {
                d * ENEMY_WEIGHT
            } else {
                ENEMY_CEILING
            },
            None => home - ENEMY_CEILING,
        }
    }
}

fn greedy_step(g: &HexGrid, units: &Vec<BattalionUnit>, idx: usize, toward: bool, rim: &Vec<HexCoord>) -> (step: Option<
    HexCoord,
>)
    requires
        idx < units@.len(),
    ensures
        step == safer_step(g, units@, idx as int, toward, rim@),
{
    let pos = units[idx].position;
    let id = units[idx].id;
    let ghost u = units@[idx as int];
    let ghost unsafety = |h: HexCoord| danger(g, units@, u.side, u.id, toward, rim@, h);
    let ghost ok = |h: HexCoord| vacant(units@, u.id, h) && unsafety(h) < unsafety(u.position);
    let ghost beats = |a: HexCoord, b: HexCoord| unsafety(a) < unsafety(b);
    let here: i64 = danger_at(g, units, idx, toward, rim, pos);
    let exits: Vec<HexCoord> = g.passable_neighbors(pos);
    let mut best: Option<usize> = None;
    let mut best_danger: i64 = here;
    let mut k: usize = 0;
    assert(exits@.take(0) =~= Seq::<HexCoord>::empty());
    while k < exits.len()
        invariant
            k <= exits@.len(),
            idx < units@.len(),
            u == units@[idx as int],
            id == u.id,
            unsafety == (|h: HexCoord| danger(g, units@, u.side, u.id, toward, rim@, h)),
            ok == (|h: HexCoord| vacant(units@, u.id, h) && unsafety(h) < unsafety(u.position)),
            beats == (|a: HexCoord, b: HexCoord| unsafety(a) < unsafety(b)),
            here == unsafety(u.position),
            match best {
                Some(b) => b < k && winner(exits@.take(k as int), ok, beats) == Some(b as int) && best_danger
                    == unsafety(exits@[b as int]) && best_danger < here,
                None => winner(exits@.take(k as int), ok, beats) is None && best_danger == here,
            },
        decreases exits@.len() - k,
    {
        let n = exits[k];
        assert(exits@.take(k + 1).drop_last() =~= exits@.take(k as int));
        assert(exits@.take(k + 1).last() == n);
        if is_vacant(units, id, n) {
            let d: i64 = danger_at(g, units, idx, toward, rim, n);
            if d < best_danger {
                best_danger = d;
                best = Some(k);
            }
        }
        k += 1;
    }
    assert(exits@.take(exits@.len() as int) =~= exits@);
    match best {
        Some(b) => Some(exits[b]),
        None => None,
    }
}

/// What a battalion becomes by one retreat step, if it has one.
fn retreat_of(g: &HexGrid, units: &Vec<BattalionUnit>, idx: usize, toward: bool, rim: &Vec<HexCoord>) -> (after: Option<
    BattalionUnit,
>)
    requires
        idx < units@.len(),
    ensures
        after == retreated(g, units@, idx as int, toward, rim@),
{
    if !units[idx].is_targetable() {
        return None;
    }
    let mut step: Option<HexCoord> = None;
    if toward {
        step = bfs_edge_step(g, units, idx, rim);
    }
    if step.is_none() {
        step = greedy_step(g, units, idx, toward, rim);
    }
    match step {
        Some(h) => Some(step_to(g, units[idx], toward, rim, h)),
        None => None,
    }
}

/// The battalion after a step to `h`.
fn step_to(g: &HexGrid, u: BattalionUnit, toward: bool, rim: &Vec<HexCoord>, h: HexCoord) -> (after: BattalionUnit)
    ensures
        after == stepped(g, u, toward, rim@, h),
{
    let mut after = u;
    after.position = h;
    if toward && own_edge_distance(g, u.side, h, rim) == 0 {
        after.state = UnitState::Withdrawn;
    }
    after
}

/// One disordered retreat step of the battalion `unit_id`: along its route off
/// the battle, or, with `toward_own_edge` unset, directly away from the nearest
/// enemy. Says whether the battalion moved or withdrew.
pub fn retreat_step(
    grid: &HexGrid,
    units: &mut Vec<BattalionUnit>,
    unit_id: usize,
    toward_own_edge: bool,
) -> (moved: bool)
    ensures
        (final(units)@, moved) == retreat_result(
            grid,
            old(units)@,
            unit_id,
            toward_own_edge,
            Seq::empty(),
        ),
{
    retreat_step_zoned(grid, units, unit_id, toward_own_edge, None)
}

/// [`retreat_step`] in a battle with deployment zones, the attacker's and the
/// defender's: the defender's own edge is the eastern rim of its zone.
pub fn retreat_step_zoned(
    grid: &HexGrid,
    units: &mut Vec<BattalionUnit>,
    unit_id: usize,
    toward_own_edge: bool,
    zones: Option<(&[HexCoord], &[HexCoord])>,
) -> (moved: bool)
    ensures
        (final(units)@, moved) == retreat_result(
            grid,
            old(units)@,
            unit_id,
            toward_own_edge,
            rim_of(zones),
        ),
{
    let rim: Vec<HexCoord> = match zones {
        Some((_, d)) => rim_hexes(d),
        None => Vec::new(),
    };
    retreat_to_rim(grid, units, unit_id, toward_own_edge, &rim)
}

/// One retreat step, with the rim that the defender routs to.
pub(crate) fn retreat_to_rim(
    grid: &HexGrid,
    units: &mut Vec<BattalionUnit>,
    unit_id: usize,
    toward_own_edge: bool,
    rim: &Vec<HexCoord>,
) -> (moved: bool)
    ensures
        (final(units)@, moved) == retreat_result(
            grid,
            old(units)@,
            unit_id,
            toward_own_edge,
            rim@,
        ),
{
    let idx = match find_unit(units.as_slice(), unit_id) {
        Some(i) => i,
        None => {
            return false;
        },
    };
    match retreat_of(grid, units, idx, toward_own_edge, rim) {
        Some(u) => {
            units.set(idx, u);
            true
        },
        None => false,
    }
}

proof fn lemma_first_step_is_free(
    g: &HexGrid,
    start: HexCoord,
    free: spec_fn(HexCoord) -> bool,
    goal: spec_fn(HexCoord) -> bool,
)
    ensures
        first_step(g, start, free, goal) matches Some(h) ==> g.exits(start).contains(h) && free(h),
{
    reveal(first_step);
    if exists|p: Seq<HexCoord>| is_best_route(g, start, free, goal, p) {
        let p = choose|p: Seq<HexCoord>| is_best_route(g, start, free, goal, p);
        assert(leads(g, start, free, goal, p));
        assert(free(p[0]));
    }
}

/// A retreat step respects stacking and terrain: the battalion ends one step
/// away, on a passable hex that no other battalion holds, or it stands on a way
/// off the battle and holds its hex. Apart from that, only a battalion on its own
/// edge changes: it withdraws.
pub proof fn law_retreat_respects_stacking(
    g: &HexGrid,
    units: Seq<BattalionUnit>,
    i: int,
    toward: bool,
    rim: Seq<HexCoord>,
)
    requires
        0 <= i < units.len(),
        full_compass(g.order()),
    ensures
        retreated(g, units, i, toward, rim) matches Some(v) ==> {
            let u = units[i];
            &&& v.position == u.position || {
                &&& hex_distance(u.position, v.position) == 1
                &&& g.open_ground(v.position)
                &&& vacant(units, u.id, v.position)
            }
            &&& v.position == u.position ==> toward && (exit_hexes(g, u.side, rim, WayOff::OutOfBounds)(
                u.position,
            ) || exit_hexes(g, u.side, rim, WayOff::OwnEdge)(u.position))
            &&& v == BattalionUnit { position: v.position, state: v.state, ..u }
            &&& v.state == u.state || (v.state == UnitState::Withdrawn && toward && own_edge_gap(
                g,
                u.side,
                rim,
                v.position,
            ) == 0)
        },
{
    let u = units[i];
    let free = open_to(g, units, u.id);
    let ring = exit_hexes(g, u.side, rim, WayOff::OutOfBounds);
    let edge = exit_hexes(g, u.side, rim, WayOff::OwnEdge);
    lemma_first_step_is_free(g, u.position, free, ring);
    lemma_first_step_is_free(g, u.position, free, edge);
    if let Some(h) = rout_step(g, units, i, rim) {
        law_exits_are_the_passable_neighbours(g, u.position, h);
    }
    let unsafety = |h: HexCoord| danger(g, units, u.side, u.id, toward, rim, h);
    let exits = g.exits(u.position);
    let ok = |h: HexCoord| vacant(units, u.id, h) && unsafety(h) < unsafety(u.position);
    let beats = |a: HexCoord, b: HexCoord| unsafety(a) < unsafety(b);
    law_winner_matches(exits, ok, beats);
    if let Some(k) = winner(exits, ok, beats) {
        assert(exits.contains(exits[k]));
        law_exits_are_the_passable_neighbours(g, u.position, exits[k]);
    }
}

/// A rout gets off the battle: once it has taken the first step of its best
/// route, the rest of that route, one step shorter, leads on from where it
/// stands.
pub proof fn law_rout_follows_its_route(
    g: &HexGrid,
    units: Seq<BattalionUnit>,
    i: int,
    rim: Seq<HexCoord>,
    way: WayOff,
    p: Seq<HexCoord>,
)
    requires
        0 <= i < units.len(),
        is_best_route(
            g,
            units[i].position,
            open_to(g, units, units[i].id),
            exit_hexes(g, units[i].side, rim, way),
            p,
        ),
        p.len() >= 2,
    ensures
        leads(
            g,
            p[0],
            open_to(g, units.update(i, stepped(g, units[i], true, rim, p[0])), units[i].id),
            exit_hexes(g, units[i].side, rim, way),
            p.skip(1),
        ),
{
    let u = units[i];
    let after = units.update(i, stepped(g, u, true, rim, p[0]));
    let free = open_to(g, units, u.id);
    let goal = exit_hexes(g, u.side, rim, way);
    let start = u.position;
    let rest = p.skip(1);
    assert(leads(g, start, free, goal, p));
    assert forall|h: HexCoord| #[trigger] vacant(units, u.id, h) implies vacant(after, u.id, h) by {
        assert forall|j: int| 0 <= j < after.len() implies !((#[trigger] after[j]).id != u.id
            && after[j].position == h && after[j].targetable()) by {
            if j != i {
                assert(after[j] == units[j]);
            }
        }
    }
    assert(g.exits(p[0]).contains(p[1]));
    assert forall|k: int| 0 <= k < rest.len() implies open_to(g, after, u.id)(#[trigger] rest[k])
        && rest[k] != p[0] by {
        assert(rest[k] == p[k + 1]);
        assert(free(p[k + 1]));
        if p[k + 1] == p[0] {
            let shorter = p.skip(k + 1);
            assert(shorter[0] == p[0]);
            assert forall|a: int| 0 <= a < shorter.len() implies free(#[trigger] shorter[a]) && shorter[a]
                != start by {
                assert(shorter[a] == p[a + k + 1]);
            }
            assert forall|a: int, b: int| 0 <= a && b == a + 1 && b < shorter.len() implies g.exits(
                #[trigger] shorter[a],
            ).contains(#[trigger] shorter[b]) by {
                assert(shorter[a] == p[a + k + 1] && shorter[b] == p[b + k + 1]);
            }
            assert(shorter.last() == p.last());
            assert(leads(g, start, free, goal, shorter));
        }
    }
    assert forall|a: int, b: int| 0 <= a && b == a + 1 && b < rest.len() implies g.exits(
        #[trigger] rest[a],
    ).contains(#[trigger] rest[b]) by {
        assert(rest[a] == p[a + 1] && rest[b] == p[b + 1]);
    }
    assert(rest.last() == p.last());
    assert(rest[0] == p[1]);
}

/// Wherever there is a route to a goal there is a first step, and only there.
pub proof fn law_a_step_is_found_where_a_route_is(
    g: &HexGrid,
    start: HexCoord,
    free: spec_fn(HexCoord) -> bool,
    goal: spec_fn(HexCoord) -> bool,
)
    ensures
        first_step(g, start, free, goal) is Some <==> exists|q: Seq<HexCoord>|
            #[trigger] leads(g, start, free, goal, q),
{
    reveal(first_step);
    if exists|q: Seq<HexCoord>| #[trigger] leads(g, start, free, goal, q) {
        let q = choose|q: Seq<HexCoord>| #[trigger] leads(g, start, free, goal, q);
        lemma_best_route_exists(g, start, free, goal, q);
    }
    if exists|p: Seq<HexCoord>| is_best_route(g, start, free, goal, p) {
        let p = choose|p: Seq<HexCoord>| is_best_route(g, start, free, goal, p);
        assert(leads(g, start, free, goal, p));
    }
}

proof fn lemma_best_route_exists(
    g: &HexGrid,
    start: HexCoord,
    free: spec_fn(HexCoord) -> bool,
    goal: spec_fn(HexCoord) -> bool,
    q: Seq<HexCoord>,
)
    requires
        leads(g, start, free, goal, q),
    ensures
        exists|p: Seq<HexCoord>| is_best_route(g, start, free, goal, p),
    decreases q.len(), g.exits(start).index_of(q[0]),
{
    let exits = g.exits(start);
    if !is_best_route(g, start, free, goal, q) {
        let p = choose|p: Seq<HexCoord>|
            #[trigger] leads(g, start, free, goal, p) && !no_worse(exits, q, p);
        assert(exits.contains(p[0]));
        lemma_best_route_exists(g, start, free, goal, p);
    }
}

} // verus!
