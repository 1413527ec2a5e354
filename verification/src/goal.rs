//! Where a battalion marches and where its guns fire when the enemy does not
//! decide it: the division's order, the flags, and what is known of the
//! enemy's zone.
use vstd::prelude::*;
use crate::hex::{disc, hex_distance, HexCoord};
use crate::pick::{find_least, first_where, least, Key};
use crate::turn::{
    held, held_by_other, is_held, is_held_by_other, is_reserved, DivOrderTarget, FlagZone, Spot, Turn, TurnView,
};
use crate::unit::{BattalionUnit, Side};

verus! {

/// How much nearer the ordered point itself counts.
pub const POINT_PREFERENCE: i64 = 3;

/// A battalion may make the hex its destination: passable, unclaimed, and held
/// by no other battalion that fights.
pub open spec fn goal_free(t: TurnView, reserved: Seq<HexCoord>, id: usize, h: HexCoord) -> bool {
    t.grid.open_ground(h) && !reserved.contains(h) && !held_by_other(t.all, id, h)
}

pub fn goal_hex_free(t: &Turn, reserved: &Vec<HexCoord>, id: usize, h: HexCoord) -> (b: bool)
    ensures
        b == goal_free(t@, reserved@, id, h),
{
    t.grid.is_open(h) && !is_reserved(reserved, h) && !is_held_by_other(&t.all, id, h)
}

/// A hex of an objective's area that a battalion may spread to: passable, no
/// ford, unclaimed and held by no battalion that fights.
pub open spec fn area_hex_free(t: TurnView, reserved: Seq<HexCoord>, h: HexCoord) -> bool {
    t.grid.open_ground(h) && !t.grid.river_at(h) && !reserved.contains(h) && !held(t.all, h)
}

/// The hexes of an objective's area, ranked by nearness to `from`; the point
/// itself counts nearer than it is.
pub open spec fn area_keys(
    t: TurnView,
    reserved: Seq<HexCoord>,
    from: HexCoord,
    center: HexCoord,
    radius: nat,
) -> Seq<Option<Key>> {
    Seq::new(
        disc(center, radius).len(),
        |i: int|
            {
                let h = disc(center, radius)[i];
                if area_hex_free(t, reserved, h) {
                    Some(
                        Key {
                            a: (hex_distance(from, h) - if h == center {
                                POINT_PREFERENCE as int
                            } else {
                                0
                            }) as i128,
                            b: h.q as i128,
                            c: h.r as i128,
                            d: 0,
                        },
                    )
                } else {
                    None
                }
            },
    )
}

/// The nearest free hex of the area round an objective, or the objective
/// itself where the whole area is taken.
pub open spec fn spread(
    t: TurnView,
    reserved: Seq<HexCoord>,
    from: HexCoord,
    center: HexCoord,
    radius: nat,
) -> HexCoord {
    match least(area_keys(t, reserved, from, center, radius)) {
        Some(i) => disc(center, radius)[i],
        None => center,
    }
}

/// The point of an order and the radius of its area.
pub open spec fn order_area(order: DivOrderTarget) -> (HexCoord, nat) {
    match order {
        DivOrderTarget::Seize { hex } => (hex, 2),
        DivOrderTarget::Engage { unit: _, last_pos } => (last_pos, 1),
    }
}

/// The destination that a battalion has under the division's order: the one
/// it already marches to while that is free and in the area, else the hex of
/// the area that it spreads to.
pub open spec fn order_goal(t: TurnView, reserved: Seq<HexCoord>, u: BattalionUnit) -> Option<HexCoord> {
    match t.order {
        None => None,
        Some(order) => {
            let (center, radius) = order_area(order);
            match u.move_to {
                Some(dest) if hex_distance(dest, center) <= radius && goal_free(
                    t,
                    reserved,
                    u.id,
                    dest,
                ) => Some(dest),
                _ => Some(spread(t, reserved, u.position, center, radius)),
            }
        },
    }
}

/// The point that guns converge on under the division's order.
pub open spec fn order_point(t: TurnView) -> Option<HexCoord> {
    match t.order {
        Some(order) => Some(order_area(order).0),
        None => None,
    }
}

/// The hex, if it is in the battalion's firing envelope.
pub open spec fn in_envelope(u: BattalionUnit, h: Option<HexCoord>) -> Option<HexCoord> {
    match h {
        Some(hex) if u.min_attack_range <= hex_distance(u.position, hex) <= u.attack_range => Some(hex),
        _ => None,
    }
}

fn spread_goal(t: &Turn, reserved: &Vec<HexCoord>, from: HexCoord, center: HexCoord, radius: u8) -> (h: HexCoord)
    ensures
        h == spread(t@, reserved@, from, center, radius as nat),
{
    let area: Vec<HexCoord> = center.hexes_in_range(radius);
    let mut keys: Vec<Option<Key>> = Vec::new();
    let mut i: usize = 0;
    while i < area.len()
        invariant
            i <= area@.len(),
            area@ == disc(center, radius as nat),
            keys@ =~= area_keys(t@, reserved@, from, center, radius as nat).take(i as int),
        decreases area@.len() - i,
    {
        let h = area[i];
        if t.grid.is_open(h) && !t.grid.is_river(h) && !is_reserved(reserved, h) && !is_held(&t.all, h) {
            let mut d: i64 = from.distance(h);
            if h == center {
                d = d - POINT_PREFERENCE;
            }
            keys.push(Some(Key { a: d as i128, b: h.q as i128, c: h.r as i128, d: 0 }));
        } else {
            keys.push(None);
        }
        i += 1;
    }
    assert(keys@ =~= area_keys(t@, reserved@, from, center, radius as nat));
    match find_least(&keys) {
        Some(k) => area[k],
        None => center,
    }
}

/// The destination that a battalion has under the division's order.
pub fn find_order_goal(t: &Turn, reserved: &Vec<HexCoord>, u: &BattalionUnit) -> (g: Option<HexCoord>)
    ensures
        g == order_goal(t@, reserved@, *u),
{
    let (center, radius): (HexCoord, u8) = match t.order {
        None => {
            return None;
        },
        Some(DivOrderTarget::Seize { hex }) => (hex, 2),
        Some(DivOrderTarget::Engage { unit: _, last_pos }) => (last_pos, 1),
    };
    if let Some(dest) = u.move_to {
        if dest.distance(center) <= radius as i64 && goal_hex_free(t, reserved, u.id, dest) {
            return Some(dest);
        }
    }
    Some(spread_goal(t, reserved, u.position, center, radius))
}

fn envelope(u: &BattalionUnit, h: Option<HexCoord>) -> (r: Option<HexCoord>)
    ensures
        r == in_envelope(*u, h),
{
    match h {
        Some(hex) => {
            let d: i64 = u.position.distance(hex);
            if u.min_attack_range <= d && d <= u.attack_range {
                Some(hex)
            } else {
                None
            }
        },
        None => None,
    }
}

/// The point of the division's order, if the battalion's guns reach it.
pub fn order_goal_in_range(t: &Turn, u: &BattalionUnit) -> (r: Option<HexCoord>)
    ensures
        r == in_envelope(*u, order_point(t@)),
{
    let h: Option<HexCoord> = match t.order {
        None => None,
        Some(DivOrderTarget::Seize { hex }) => Some(hex),
        Some(DivOrderTarget::Engage { unit: _, last_pos }) => Some(last_pos),
    };
    envelope(u, h)
}

/// The hexes of a zone that lie in the band ahead of `h`, ranked by nearness,
/// then by nearness to the centre.
pub open spec fn band_keys(spots: Seq<Spot>, h: HexCoord) -> Seq<Option<Key>> {
    Seq::new(
        spots.len(),
        |i: int|
            if 3 <= hex_distance(h, spots[i].hex) <= 8 {
                Some(
                    Key {
                        a: hex_distance(h, spots[i].hex) as i128,
                        b: spots[i].off_centre as i128,
                        c: spots[i].hex.q as i128,
                        d: spots[i].hex.r as i128,
                    },
                )
            } else {
                None
            },
    )
}

/// All hexes of a zone, ranked by nearness to its centre and, where `near` is
/// set, before that by nearness to `h`.
pub open spec fn zone_keys(spots: Seq<Spot>, h: HexCoord, near: bool) -> Seq<Option<Key>> {
    Seq::new(
        spots.len(),
        |i: int|
            Some(
                Key {
                    a: if near {
                        hex_distance(h, spots[i].hex) as i128
                    } else {
                        0
                    },
                    b: spots[i].off_centre as i128,
                    c: spots[i].hex.q as i128,
                    d: spots[i].hex.r as i128,
                },
            ),
    )
}

/// The hex of a zone to make for from `h`: the nearest in the band ahead, or
/// else the best of the whole zone.
pub open spec fn zone_goal(spots: Seq<Spot>, h: HexCoord, near: bool) -> Option<HexCoord> {
    match least(band_keys(spots, h)) {
        Some(i) => Some(spots[i].hex),
        None => match least(zone_keys(spots, h, near)) {
            Some(i) => Some(spots[i].hex),
            None => None,
        },
    }
}

fn find_zone_goal(spots: &Vec<Spot>, h: HexCoord, near: bool) -> (g: Option<HexCoord>)
    ensures
        g == zone_goal(spots@, h, near),
{
    let mut band: Vec<Option<Key>> = Vec::new();
    let mut zone: Vec<Option<Key>> = Vec::new();
    let mut i: usize = 0;
    while i < spots.len()
        invariant
            i <= spots@.len(),
            band@ =~= band_keys(spots@, h).take(i as int),
            zone@ =~= zone_keys(spots@, h, near).take(i as int),
        decreases spots@.len() - i,
    {
        let s = spots[i];
        let d: i64 = h.distance(s.hex);
        let b: i128 = s.off_centre as i128;
        let c: i128 = s.hex.q as i128;
        let e: i128 = s.hex.r as i128;
        if 3 <= d && d <= 8 {
            band.push(Some(Key { a: d as i128, b, c, d: e }));
        } else {
            band.push(None);
        }
        zone.push(
            Some(
                Key {
                    a: if near {
                        d as i128
                    } else {
                        0
                    },
                    b,
                    c,
                    d: e,
                },
            ),
        );
        i += 1;
    }
    assert(band@ =~= band_keys(spots@, h));
    assert(zone@ =~= zone_keys(spots@, h, near));
    match find_least(&band) {
        Some(k) => Some(spots[k].hex),
        None => match find_least(&zone) {
            Some(k) => Some(spots[k].hex),
            None => None,
        },
    }
}

/// The hexes of all flags' zones.
pub open spec fn flag_spots(flags: Seq<FlagZone>) -> Seq<Spot>
    decreases flags.len(),
{
    if flags.len() == 0 {
        Seq::empty()
    } else {
        flag_spots(flags.drop_last()) + flags.last().zone@
    }
}

fn all_flag_spots(flags: &Vec<FlagZone>) -> (s: Vec<Spot>)
    ensures
        s@ == flag_spots(flags@),
{
    let mut out: Vec<Spot> = Vec::new();
    let mut i: usize = 0;
    assert(flags@.take(0) =~= Seq::<FlagZone>::empty());
    while i < flags.len()
        invariant
            i <= flags@.len(),
            out@ == flag_spots(flags@.take(i as int)),
        decreases flags@.len() - i,
    {
        assert(flags@.take(i + 1).drop_last() =~= flags@.take(i as int));
        assert(flags@.take(i + 1).last() == flags@[i as int]);
        let zone = &flags[i].zone;
        let ghost so_far = out@;
        let mut j: usize = 0;
        while j < zone.len()
            invariant
                j <= zone@.len(),
                out@ =~= so_far + zone@.take(j as int),
            decreases zone@.len() - j,
        {
            out.push(zone[j]);
            j += 1;
        }
        assert(zone@.take(zone@.len() as int) =~= zone@);
        i += 1;
    }
    assert(flags@.take(flags@.len() as int) =~= flags@);
    out
}

/// Where a battalion at `h` makes for without sight of the enemy: an attacker
/// makes for the flags where there are any, and else for what is known of the
/// enemy's zone.
pub open spec fn blind_goal(t: TurnView, h: HexCoord) -> Option<HexCoord> {
    if t.side == Side::Attacker && t.flags.len() > 0 {
        zone_goal(flag_spots(t.flags), h, true)
    } else {
        zone_goal(t.intel, h, false)
    }
}

/// Where a battalion at `h` makes for without sight of the enemy.
pub fn find_blind_goal(t: &Turn, h: HexCoord) -> (g: Option<HexCoord>)
    ensures
        g == blind_goal(t@, h),
{
    if t.side == Side::Attacker && t.flags.len() > 0 {
        let spots: Vec<Spot> = all_flag_spots(&t.flags);
        find_zone_goal(&spots, h, true)
    } else {
        find_zone_goal(&t.intel, h, false)
    }
}

/// The blind goal, if the battalion's guns reach it.
pub fn intel_goal_in_range(t: &Turn, u: &BattalionUnit) -> (r: Option<HexCoord>)
    ensures
        r == in_envelope(*u, blind_goal(t@, u.position)),
{
    let h = find_blind_goal(t, u.position);
    envelope(u, h)
}

/// The hex lies in a zone.
pub open spec fn in_spots(zone: Seq<Spot>, h: HexCoord) -> bool {
    exists|i: int| 0 <= i < zone.len() && (#[trigger] zone[i]).hex == h
}

/// The hex lies in a zone.
pub fn zone_contains(zone: &Vec<Spot>, h: HexCoord) -> (b: bool)
    ensures
        b == in_spots(zone@, h),
{
    let mut i: usize = 0;
    while i < zone.len()
        invariant
            i <= zone@.len(),
            forall|j: int| 0 <= j < i ==> (#[trigger] zone@[j]).hex != h,
        decreases zone@.len() - i,
    {
        if zone[i].hex == h {
            assert(zone@[i as int].hex == h);
            return true;
        }
        i += 1;
    }
    false
}

/// The flags whose zone holds the hex.
pub open spec fn covers(h: HexCoord) -> spec_fn(FlagZone) -> bool {
    |f: FlagZone| in_spots(f.zone@, h)
}

/// How far the capture of the flag whose zone holds the hex has come.
pub open spec fn progress_at(t: TurnView, h: HexCoord) -> i32 {
    match first_where(t.flags, covers(h)) {
        Some(i) => t.flags[i].progress,
        None => 0,
    }
}

/// How far the capture of the flag whose zone holds the hex has come.
pub fn zone_flag_progress(t: &Turn, h: HexCoord) -> (p: i32)
    ensures
        p == progress_at(t@, h),
{
    let ghost ok = covers(h);
    let mut i: usize = 0;
    while i < t.flags.len()
        invariant
            i <= t.flags@.len(),
            ok == covers(h),
            forall|j: int| 0 <= j < i ==> !ok(#[trigger] t.flags@[j]),
        decreases t.flags@.len() - i,
    {
        if zone_contains(&t.flags[i].zone, h) {
            proof {
                crate::pick::law_first_where(t.flags@, ok);
                assert(ok(t.flags@[i as int]));
            }
            return t.flags[i].progress;
        }
        i += 1;
    }
    proof {
        crate::pick::law_first_where(t.flags@, ok);
    }
    0
}

/// How far the nearest hex of a zone is.
pub open spec fn zone_distance(zone: Seq<Spot>, h: HexCoord) -> int
    decreases zone.len(),
{
    if zone.len() == 0 {
        crate::turn::FAR as int
    } else {
        crate::turn::nearer(hex_distance(h, zone.last().hex), zone_distance(zone.drop_last(), h))
    }
}

/// How far the nearest hex of a zone is.
pub fn distance_to_zone(zone: &Vec<Spot>, h: HexCoord) -> (d: i64)
    ensures
        d == zone_distance(zone@, h),
        0 <= d <= crate::turn::FAR,
{
    let mut d: i64 = crate::turn::FAR;
    let mut i: usize = 0;
    assert(zone@.take(0) =~= Seq::<Spot>::empty());
    while i < zone.len()
        invariant
            i <= zone@.len(),
            d == zone_distance(zone@.take(i as int), h),
            0 <= d <= crate::turn::FAR,
        decreases zone@.len() - i,
    {
        assert(zone@.take(i + 1).drop_last() =~= zone@.take(i as int));
        let e: i64 = h.distance(zone[i].hex);
        if e < d {
            d = e;
        }
        i += 1;
    }
    assert(zone@.take(zone@.len() as int) =~= zone@);
    d
}

/// A destination under a division's order lies in the order's area, and is
/// passable, unclaimed and no other battalion's, unless the whole area is
/// taken: then it is the ordered point itself.
pub proof fn law_order_goal_is_in_the_area(t: TurnView, reserved: Seq<HexCoord>, u: BattalionUnit)
    ensures
        t.order matches Some(order) ==> {
            let (center, radius) = order_area(order);
            &&& order_goal(t, reserved, u) matches Some(h)
            &&& hex_distance(center, h) <= radius
            &&& h == center || (t.grid.open_ground(h) && !reserved.contains(h) && !held_by_other(
                t.all,
                u.id,
                h,
            ))
        },
{
    if let Some(order) = t.order {
        let (center, radius) = order_area(order);
        let keys = area_keys(t, reserved, u.position, center, radius);
        crate::pick::law_least(keys);
        if let Some(i) = least(keys) {
            let h = disc(center, radius)[i];
            assert(disc(center, radius).contains(h));
            crate::hex::law_disc(center, radius, h);
            assert(area_hex_free(t, reserved, h));
            if held_by_other(t.all, u.id, h) {
                let k = choose|k: int|
                    0 <= k < t.all.len() && (#[trigger] t.all[k]).id != u.id && t.all[k].effective()
                        && t.all[k].position == h;
                assert(held(t.all, h));
            }
        }
        if let Some(dest) = u.move_to {
            crate::hex::law_distance_is_a_metric(dest, center, center);
        }
        crate::hex::law_distance_is_a_metric(center, center, center);
    }
}

} // verus!
