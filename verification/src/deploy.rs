//! Where a side deploys its battalions.
//!
//! A defender garrisons its city first; then the line takes the front, each
//! division in its own sector and each battalion in its echelon's band; a few
//! observers go up to the crests; guns stand behind the line, and headquarters
//! behind their divisions. What the hexes of the zone are worth in a search, and
//! which of them lie in a sector of the front, is reckoned outside: it is looked
//! up in a book of tables, and the first table that the book lacks is asked for.
use vstd::prelude::*;
use crate::formation::{
    choose_echelon, echelon_from, elevation_at, formation_of, height_at, is_crest, law_echelons_make_up_the_division,
    on_crest, profile_for, DeployProfile, Formation, Shape,
};
use crate::grid::HexGrid;
use crate::hex::{hex_distance, max_int, HexCoord};
use crate::pick::{
    count_where, find_least, first_where, indices, law_first_where, law_those_where, least, rank,
    ranked, those_where, Key,
};
use crate::retreat::{find_namesake, namesake, nearest_hex, nearest_of};
use crate::tactic::CombatTactic;
use crate::turn::is_reserved;
use crate::unit::{offboard, offboard_hex, BattalionUnit, Side};

verus! {

/// What a side deploys for: its zone and the enemy's, its card, and which of
/// its battalions are to be placed.
pub struct Deployment<'a> {
    pub grid: &'a HexGrid,
    pub zone: &'a Vec<HexCoord>,
    pub enemy_zone: &'a Vec<HexCoord>,
    /// Of each hex of the zone the hexes between it and the middle of the
    /// enemy's zone.
    pub sightlines: &'a Vec<Vec<HexCoord>>,
    pub side: Side,
    pub tactic: CombatTactic,
    /// Only this division is placed.
    pub only_division: Option<usize>,
    /// The divisions that share the front, in their order along it.
    pub sector_divisions: Option<&'a Vec<usize>>,
    /// Only battalions that still wait are placed.
    pub only_undeployed: bool,
}

/// Which part of the front a sector lies in.
#[derive(Debug, Clone, Copy, PartialEq, Eq, Structural)]
pub enum Wing {
    /// The part that the formation covers.
    Covered,
    /// The first wing of two.
    Left,
    /// The second wing of two.
    Right,
    /// The whole front.
    Whole,
}

/// A stretch of the front: from one part to another of so many.
#[derive(Debug, Clone, Copy, PartialEq, Eq, Structural)]
pub struct Sector {
    pub wing: Wing,
    pub from: usize,
    pub to: usize,
    pub of: usize,
}

/// A distance from the enemy's zone: an average and so many hexes more.
#[derive(Debug, Clone, Copy, PartialEq, Eq, Structural)]
pub struct Target {
    pub sum: i128,
    pub count: i128,
    pub offset: i128,
}

/// Where along its sector a battalion aims.
#[derive(Debug, Clone, Copy, PartialEq, Eq, Structural)]
pub enum Slot {
    /// At its equal share of the sector.
    Even { index: usize, of: usize },
    /// Beside the middle of its division's line, the steps growing to either
    /// side in turn.
    Cluster { index: usize },
}

/// What a hex is looked for.
#[derive(Debug, Clone, Copy, PartialEq, Eq, Structural)]
pub enum Search {
    /// A city hex for a battalion of the garrison.
    Garrison { who: usize },
    /// A hex in a band of a sector; the band is bounded in depth or not.
    Band { who: usize, sector: Sector, target: Target, bounded: bool, slot: Slot },
    /// Any hex of a sector.
    Ground { who: usize, sector: Sector, target: Target, slot: Slot },
    /// A crest of a sector near a hex.
    Crest { sector: Sector, near: HexCoord },
    /// A post for a headquarters, on a leash to its division.
    Rear { anchor: Option<HexCoord> },
}

/// What a hex of the zone is worth in a search. Quantities are given by
/// integers that order as they do. In the search for a city hex the lesser
/// score is the better one, else the greater.
#[derive(Debug, Clone, Copy, PartialEq, Eq, Structural)]
pub struct SiteRow {
    /// Whether the hex lies in the sector, with its slack.
    pub inside: bool,
    /// How far the hex is from the slot.
    pub near: i64,
    /// The score of the hex while no hex next to it is taken.
    pub open: i64,
    /// The score of the hex once a hex next to it is taken.
    pub crowded: i64,
}

/// What the hexes of the zone are worth in a search, in their order.
#[derive(Debug, PartialEq, Eq)]
pub struct SiteTable {
    pub search: Search,
    pub rows: Vec<SiteRow>,
}

/// What a deployment has been told.
#[derive(Debug, PartialEq, Eq)]
pub struct DeployBook {
    pub tables: Vec<SiteTable>,
}

/// A question: the table of a search. One for a support battalion comes with
/// the line of its division.
#[derive(Debug, PartialEq, Eq)]
pub struct DeployQuestion {
    pub search: Search,
    pub line: Vec<HexCoord>,
}

/// A question as a value.
#[verifier::ext_equal]
pub struct Asked {
    pub search: Search,
    pub line: Seq<HexCoord>,
}

impl View for DeployQuestion {
    type V = Asked;

    open spec fn view(&self) -> Asked {
        Asked { search: self.search, line: self.line@ }
    }
}

/// How many hexes a headquarters deploys from its division.
pub const HQ_DEPLOY_LEASH: i64 = 2;

/// How many battalions of the line there are to one observer.
pub const OBSERVER_QUOTA_DIV: usize = 8;

/// The deployment so far: the battalions, the hexes that are taken, the ids of
/// the garrison, and the line with its divisions.
#[verifier::ext_equal]
pub struct DeployView {
    pub units: Seq<BattalionUnit>,
    pub used: Seq<HexCoord>,
    pub garrison: Seq<usize>,
    pub placed: Seq<(usize, HexCoord)>,
}

pub struct DeployState {
    pub units: Vec<BattalionUnit>,
    pub used: Vec<HexCoord>,
    pub garrison: Vec<usize>,
    pub placed: Vec<(usize, HexCoord)>,
}

impl View for DeployState {
    type V = DeployView;

    open spec fn view(&self) -> DeployView {
        DeployView {
            units: self.units@,
            used: self.used@,
            garrison: self.garrison@,
            placed: self.placed@,
        }
    }
}

// ---- looking for a hex ----

/// The tables of a search.
pub open spec fn table_of(d: &Deployment, s: Search) -> spec_fn(SiteTable) -> bool {
    |t: SiteTable| t.search == s && t.rows@.len() == d.zone@.len()
}

/// How far a hex is from the enemy's zone.
pub open spec fn front_of(d: &Deployment, h: HexCoord) -> int {
    match nearest_hex(d.enemy_zone@, h) {
        Some(m) => m,
        None => 0,
    }
}

/// A hex next to this one is taken.
pub open spec fn is_crowded(used: Seq<HexCoord>, h: HexCoord) -> bool {
    exists|i: int| 0 <= i < used.len() && hex_distance(#[trigger] used[i], h) <= 1
}

/// The score of a hex as the field stands.
pub open spec fn score_of(row: SiteRow, used: Seq<HexCoord>, h: HexCoord) -> i64 {
    if is_crowded(used, h) {
        row.crowded
    } else {
        row.open
    }
}

/// A distance lies in the band round a target: no more than one and a half
/// hexes before it and, where the band is bounded, no more than eleven and a
/// half behind it.
pub open spec fn in_band(distance: int, target: Target, bounded: bool) -> bool {
    let away = 2 * target.count * (distance - target.offset) - 2 * target.sum;
    -3 * target.count <= away && (bounded ==> away <= 23 * target.count)
}

/// The rank of a hex by its worth: the better score, then the nearer slot, then
/// the greater hex.
pub open spec fn worth_key(row: SiteRow, used: Seq<HexCoord>, h: HexCoord) -> Key {
    Key {
        a: (-score_of(row, used, h)) as i128,
        b: row.near as i128,
        c: (-h.q) as i128,
        d: (-h.r) as i128,
    }
}

/// The rank of the `i`-th hex of the zone in a search, given what it is worth;
/// a hex that is taken has none.
pub open spec fn site_key(d: &Deployment, used: Seq<HexCoord>, s: Search, row: SiteRow, i: int) -> Option<Key> {
    let h = d.zone@[i];
    if used.contains(h) {
        None
    } else {
        match s {
            Search::Garrison { who: _ } => if d.grid.urban_at(h) {
                Some(
                    Key {
                        a: score_of(row, used, h) as i128,
                        b: h.q as i128,
                        c: h.r as i128,
                        d: 0,
                    },
                )
            } else {
                None
            },
            Search::Band { who: _, sector: _, target, bounded, slot: _ } => if row.inside && in_band(
                front_of(d, h),
                target,
                bounded,
            ) {
                Some(worth_key(row, used, h))
            } else {
                None
            },
            Search::Ground { who: _, sector: _, target: _, slot: _ } => if row.inside {
                Some(worth_key(row, used, h))
            } else {
                None
            },
            Search::Crest { sector: _, near } => if row.inside && is_crest(
                d.grid,
                h,
                d.sightlines@[i]@,
            ) {
                Some(
                    Key {
                        a: hex_distance(h, near) as i128,
                        b: (-height_at(d.grid, h)) as i128,
                        c: 0,
                        d: 0,
                    },
                )
            } else {
                None
            },
            Search::Rear { anchor } => Some(
                Key {
                    a: match anchor {
                        Some(c) => max_int(hex_distance(h, c) - HQ_DEPLOY_LEASH, 0) as i128,
                        None => 0,
                    },
                    b: (-front_of(d, h)) as i128,
                    c: 0,
                    d: 0,
                },
            ),
        }
    }
}

/// What every hex is worth where it does not matter.
pub open spec fn no_row() -> SiteRow {
    SiteRow { inside: true, near: 0, open: 0, crowded: 0 }
}

/// The ranks of all hexes of the zone.
pub open spec fn site_keys(d: &Deployment, used: Seq<HexCoord>, s: Search, rows: Seq<SiteRow>) -> Seq<Option<Key>> {
    Seq::new(d.zone@.len(), |i: int| site_key(d, used, s, rows[i], i))
}

/// The worth of the hexes of the zone in a search; for a headquarters it does
/// not matter.
pub open spec fn rows_of(d: &Deployment, b: &DeployBook, s: Search) -> Option<Seq<SiteRow>> {
    match s {
        Search::Rear { anchor: _ } => Some(Seq::new(d.zone@.len(), |i: int| no_row())),
        _ => match first_where(b.tables@, table_of(d, s)) {
            Some(k) => Some(b.tables@[k].rows@),
            None => None,
        },
    }
}

/// The best hex of the zone in a search.
pub open spec fn best_site(d: &Deployment, b: &DeployBook, used: Seq<HexCoord>, s: Search) -> Result<
    Option<HexCoord>,
    Search,
> {
    match rows_of(d, b, s) {
        None => Err(s),
        Some(rows) => match least(site_keys(d, used, s, rows)) {
            Some(i) => Ok(Some(d.zone@[i])),
            None => Ok(None),
        },
    }
}

// ---- who is placed ----

/// The battalion may be placed.
pub open spec fn placeable(d: &Deployment, u: BattalionUnit) -> bool {
    &&& u.side == d.side
    &&& d.only_undeployed ==> u.undeployed
}

/// The battalion is of the division that is placed.
pub open spec fn in_division(d: &Deployment, u: BattalionUnit) -> bool {
    match d.only_division {
        Some(n) => u.division == n,
        None => true,
    }
}

/// A battalion of the line: it fights hand to hand and holds ground.
pub open spec fn of_line(u: BattalionUnit) -> bool {
    u.effective() && u.attack_range <= 1 && !u.kind.hq && !u.kind.anti_air
}

/// A battalion that supports the line.
pub open spec fn of_support(u: BattalionUnit) -> bool {
    u.effective() && (u.attack_range > 1 || u.kind.anti_air)
}

/// The battalions of the city's garrison, by index.
pub open spec fn garrison_candidate(d: &Deployment, units: Seq<BattalionUnit>) -> spec_fn(usize) -> bool {
    |i: usize|
        {
            let u = units[i as int];
            placeable(d, u) && in_division(d, u) && u.effective() && u.attack_range <= 1 && !u.kind.hq
        }
}

/// The battalions of the line that are placed, by index.
pub open spec fn line_candidate(d: &Deployment, units: Seq<BattalionUnit>, garrison: Seq<usize>) -> spec_fn(
    usize,
) -> bool {
    |i: usize|
        {
            let u = units[i as int];
            placeable(d, u) && in_division(d, u) && of_line(u) && !garrison.contains(u.id)
        }
}

/// The battalions of support that are placed, by index.
pub open spec fn support_candidate(d: &Deployment, units: Seq<BattalionUnit>, garrison: Seq<usize>) -> spec_fn(
    usize,
) -> bool {
    |i: usize|
        {
            let u = units[i as int];
            placeable(d, u) && in_division(d, u) && of_support(u) && !garrison.contains(u.id)
        }
}

/// The headquarters that are placed, by index.
pub open spec fn hq_candidate(d: &Deployment, units: Seq<BattalionUnit>) -> spec_fn(usize) -> bool {
    |i: usize|
        {
            let u = units[i as int];
            placeable(d, u) && in_division(d, u) && u.effective() && u.kind.hq
        }
}

/// The battalions that are placed as headquarters: for each headquarters the one
/// that goes by its id.
pub open spec fn hqs_of(d: &Deployment, units: Seq<BattalionUnit>) -> Seq<usize> {
    those_where(indices(units.len()), hq_candidate(d, units)).map_values(|i: usize| namesake(units, i as int))
}

/// The battalions that a division takes its part of the front for.
pub open spec fn counted(d: &Deployment, garrison: Seq<usize>, division: usize) -> spec_fn(BattalionUnit) -> bool {
    |u: BattalionUnit|
        placeable(d, u) && u.effective() && !u.kind.hq && !garrison.contains(u.id) && u.division
            == division
}

/// The battalions of a division's line.
pub open spec fn counted_line(d: &Deployment, garrison: Seq<usize>, division: usize) -> spec_fn(
    BattalionUnit,
) -> bool {
    |u: BattalionUnit|
        placeable(d, u) && of_line(u) && !garrison.contains(u.id) && u.division == division
}

/// The battalions of a division's support.
pub open spec fn counted_support(d: &Deployment, garrison: Seq<usize>, division: usize) -> spec_fn(
    BattalionUnit,
) -> bool {
    |u: BattalionUnit|
        placeable(d, u) && of_support(u) && !u.kind.hq && !garrison.contains(u.id) && u.division
            == division
}

/// The battalions of the whole line.
pub open spec fn of_whole_line(d: &Deployment, garrison: Seq<usize>) -> spec_fn(BattalionUnit) -> bool {
    |u: BattalionUnit| placeable(d, u) && of_line(u) && !garrison.contains(u.id)
}

/// The battalions, weakest first.
pub open spec fn weakness_ranks(units: Seq<BattalionUnit>, pool: Seq<usize>) -> Seq<Key> {
    pool.map_values(
        |i: usize| Key { a: units[i as int].org_ratio as i128, b: i as i128, c: 0, d: 0 },
    )
}

/// The battalions, weakest first.
pub open spec fn weakest_first(units: Seq<BattalionUnit>, pool: Seq<usize>) -> Seq<usize> {
    ranked(weakness_ranks(units, pool)).map_values(|k: usize| pool[k as int])
}

// ---- the garrison ----

/// Battalions of a division, by index.
pub open spec fn in_same_division(units: Seq<BattalionUnit>, division: usize) -> spec_fn(usize) -> bool {
    |i: usize| units[i as int].division == division
}

/// The whole line garrisons the city.
pub open spec fn all_in_city(d: &Deployment) -> bool {
    d.side == Side::Defender && d.tactic == CombatTactic::UrbanDefense
}

/// How many battalions a division gives to the garrison at most.
pub open spec fn garrison_cap(units: Seq<BattalionUnit>, pool: Seq<usize>, division: usize) -> int {
    max_int(count_where(pool, in_same_division(units, division)) as int / 3, 1)
}

/// Of the first `n` battalions of the pool those that the divisions' caps let
/// into the garrison.
pub open spec fn accepted_upto(
    d: &Deployment,
    units: Seq<BattalionUnit>,
    pool: Seq<usize>,
    n: nat,
) -> Seq<usize>
    decreases n,
{
    if n == 0 {
        Seq::empty()
    } else {
        let rest = accepted_upto(d, units, pool, (n - 1) as nat);
        let division = units[pool[n - 1] as int].division;
        if all_in_city(d) || count_where(rest, in_same_division(units, division)) < garrison_cap(
            units,
            pool,
            division,
        ) {
            rest.push(pool[n - 1])
        } else {
            rest
        }
    }
}

/// The city hexes of the zone.
pub open spec fn city_hexes(d: &Deployment) -> Seq<HexCoord> {
    those_where(d.zone@, urban_in(d))
}

pub open spec fn urban_in(d: &Deployment) -> spec_fn(HexCoord) -> bool {
    |h: HexCoord| d.grid.urban_at(h)
}

/// How large the garrison is: the whole pool where all go into the city, as far
/// as it has room; else a third of the city's hexes, at least three and at most
/// half of the pool, and none where the pool is small.
pub open spec fn garrison_quota(d: &Deployment, pool: nat) -> nat {
    let city = city_hexes(d).len();
    if all_in_city(d) {
        if pool < city {
            pool
        } else {
            city
        }
    } else if pool < 6 {
        0
    } else if city / 3 < 3 {
        3
    } else if city / 3 > pool / 2 {
        pool / 2
    } else {
        city / 3
    }
}

/// The battalions that garrison the city, by index.
pub open spec fn garrison_of(d: &Deployment, units: Seq<BattalionUnit>) -> Seq<usize> {
    if d.side != Side::Defender || city_hexes(d).len() < 3 {
        Seq::empty()
    } else {
        let pool = weakest_first(
            units,
            those_where(indices(units.len()), garrison_candidate(d, units)),
        );
        let accepted = accepted_upto(d, units, pool, pool.len());
        let quota = garrison_quota(d, pool.len());
        if quota < accepted.len() {
            accepted.take(quota as int)
        } else {
            accepted
        }
    }
}

/// A battalion is put on a hex.
pub open spec fn put(st: DeployView, i: int, h: HexCoord) -> DeployView {
    DeployView { units: st.units.update(i, st.units[i].at_hex(h)), used: st.used.push(h), ..st }
}

/// The first `n` battalions of the garrison are put into the city.
pub open spec fn garrison_upto(d: &Deployment, b: &DeployBook, st: DeployView, chosen: Seq<usize>, n: nat) -> Result<
    DeployView,
    Asked,
>
    decreases n,
{
    if n == 0 {
        Ok(st)
    } else {
        match garrison_upto(d, b, st, chosen, (n - 1) as nat) {
            Err(q) => Err(q),
            Ok(s) => {
                let i = chosen[n - 1] as int;
                match best_site(d, b, s.used, Search::Garrison { who: chosen[n - 1] }) {
                    Err(search) => Err(Asked { search, line: Seq::empty() }),
                    Ok(None) => Ok(s),
                    Ok(Some(h)) => Ok(
                        DeployView { garrison: s.garrison.push(s.units[i].id), ..put(s, i, h) },
                    ),
                }
            },
        }
    }
}

// ---- sectors ----

/// A battalion of the division is placed, or already stands in the zone.
pub open spec fn has_battalion(d: &Deployment, units: Seq<BattalionUnit>, division: usize) -> bool {
    exists|i: int|
        0 <= i < units.len() && placeable(d, #[trigger] units[i]) && units[i].effective()
            && !units[i].kind.hq && units[i].division == division
}

/// The divisions of a list that have battalions, each once.
pub open spec fn listed_upto(
    d: &Deployment,
    units: Seq<BattalionUnit>,
    list: Seq<usize>,
    n: nat,
) -> Seq<usize>
    decreases n,
{
    if n == 0 {
        Seq::empty()
    } else {
        let rest = listed_upto(d, units, list, (n - 1) as nat);
        if has_battalion(d, units, list[n - 1]) && !rest.contains(list[n - 1]) {
            rest.push(list[n - 1])
        } else {
            rest
        }
    }
}

/// The divisions of the first `n` battalions, each once, in their order.
pub open spec fn roster_upto(d: &Deployment, units: Seq<BattalionUnit>, n: nat) -> Seq<usize>
    decreases n,
{
    if n == 0 {
        Seq::empty()
    } else {
        let rest = roster_upto(d, units, (n - 1) as nat);
        let u = units[n - 1];
        if placeable(d, u) && u.effective() && !u.kind.hq && u.division != 0 && !rest.contains(
            u.division,
        ) {
            rest.push(u.division)
        } else {
            rest
        }
    }
}

/// The divisions along the front, in their order.
pub open spec fn divisions_of(d: &Deployment, units: Seq<BattalionUnit>) -> Seq<usize> {
    match d.sector_divisions {
        Some(list) => listed_upto(d, units, list@, list@.len()),
        None => match d.only_division {
            Some(n) => seq![n],
            None => roster_upto(d, units, units.len()),
        },
    }
}

/// How many battalions the first `n` divisions have together.
pub open spec fn strength_upto(
    d: &Deployment,
    units: Seq<BattalionUnit>,
    garrison: Seq<usize>,
    divisions: Seq<usize>,
    n: nat,
) -> nat
    decreases n,
{
    if n == 0 {
        0
    } else {
        strength_upto(d, units, garrison, divisions, (n - 1) as nat) + count_where(
            units,
            counted(d, garrison, divisions[n - 1]),
        )
    }
}

/// The division is the one.
pub open spec fn is_division(division: usize) -> spec_fn(usize) -> bool {
    |n: usize| n == division
}

/// The sector of a division that has battalions on the front: its part by the
/// number of its battalions; of two wings the first, as long as less than half
/// of all battalions stand before it.
pub open spec fn division_sector(
    d: &Deployment,
    units: Seq<BattalionUnit>,
    garrison: Seq<usize>,
    shape: Shape,
    division: usize,
) -> Option<Sector> {
    let divisions = divisions_of(d, units);
    let total = strength_upto(d, units, garrison, divisions, divisions.len());
    match first_where(divisions, is_division(division)) {
        Some(k) if count_where(units, counted(d, garrison, division)) > 0 => {
            let before = strength_upto(d, units, garrison, divisions, k as nat);
            let own = count_where(units, counted(d, garrison, division));
            match shape {
                Shape::TwoWings(_) => if before < max_int(total as int / 2, 1) {
                    Some(Sector { wing: Wing::Left, from: 0, to: 1, of: 1 })
                } else {
                    Some(Sector { wing: Wing::Right, from: 0, to: 1, of: 1 })
                },
                _ => Some(
                    Sector {
                        wing: Wing::Covered,
                        from: before as usize,
                        to: (before + own) as usize,
                        of: total as usize,
                    },
                ),
            }
        },
        _ => None,
    }
}

/// The sector of a battalion's division, or else all that the formation covers:
/// of two wings the whole front, and for an observer the first wing.
pub open spec fn sector_of(
    d: &Deployment,
    units: Seq<BattalionUnit>,
    garrison: Seq<usize>,
    shape: Shape,
    division: usize,
    observer: bool,
) -> Sector {
    match division_sector(d, units, garrison, shape, division) {
        Some(s) => s,
        None => Sector {
            wing: match shape {
                Shape::TwoWings(_) => if observer {
                    Wing::Left
                } else {
                    Wing::Whole
                },
                _ => Wing::Covered,
            },
            from: 0,
            to: 1,
            of: 1,
        },
    }
}

// ---- the line ----

/// The least distance of a hex of the zone from the enemy's zone.
pub open spec fn edge_upto(d: &Deployment, n: nat) -> int
    decreases n,
{
    if n == 0 {
        crate::turn::FAR as int
    } else {
        crate::turn::nearer(front_of(d, d.zone@[n - 1]), edge_upto(d, (n - 1) as nat))
    }
}

/// Where the front rank stands, in half hexes from the enemy's zone: at the
/// edge of the own zone, and as much farther as the formation's band.
pub open spec fn band_base(d: &Deployment, f: Formation) -> int {
    2 * edge_upto(d, d.zone@.len()) + max_int(f.band - crate::formation::DEF_FRONT_BAND, 0)
}

/// The line in its order of placement, divided into what is placed and what
/// waits for the end of its division.
#[verifier::ext_equal]
pub struct OrderView {
    pub head: Seq<usize>,
    pub tail: Seq<usize>,
    pub last: usize,
}

/// The order of the first `n` battalions when armour comes last in its
/// division.
pub open spec fn armor_last_upto(units: Seq<BattalionUnit>, pool: Seq<usize>, n: nat) -> OrderView
    decreases n,
{
    if n == 0 {
        OrderView { head: Seq::empty(), tail: Seq::empty(), last: 0 }
    } else {
        let rest = armor_last_upto(units, pool, (n - 1) as nat);
        let i = pool[n - 1];
        let u = units[i as int];
        let flushed = if u.division != rest.last && rest.last != 0 {
            OrderView { head: rest.head + rest.tail, tail: Seq::empty(), last: u.division }
        } else {
            OrderView { last: u.division, ..rest }
        };
        if u.kind.armor {
            OrderView { tail: flushed.tail.push(i), ..flushed }
        } else {
            OrderView { head: flushed.head.push(i), ..flushed }
        }
    }
}

/// The order in which the line is placed.
pub open spec fn line_order(d: &Deployment, st: DeployView, f: Formation) -> Seq<usize> {
    let pool = those_where(indices(st.units.len()), line_candidate(d, st.units, st.garrison));
    if f.armor_reserve {
        let o = armor_last_upto(st.units, pool, pool.len());
        o.head + o.tail
    } else {
        pool
    }
}

/// How many battalions a share of the line is reckoned with, at least one.
pub open spec fn at_least_one(n: nat) -> nat {
    if n == 0 {
        1
    } else {
        n
    }
}

/// What the `k`-th battalion of the line looks for.
pub open spec fn line_search(d: &Deployment, st: DeployView, f: Formation, order: Seq<usize>, k: int) -> Search {
    let who = order[k];
    let division = st.units[who as int].division;
    let index = count_where(order.take(k), in_same_division(st.units, division));
    let total = at_least_one(count_where(st.units, counted_line(d, st.garrison, division)));
    let e = echelon_from(f.echelons, index as int, total as int, 0);
    Search::Band {
        who,
        sector: sector_of(d, st.units, st.garrison, f.shape, division, false),
        target: Target {
            sum: band_base(d, f) as i128,
            count: 2,
            offset: f.echelons[e as int].offset as i128,
        },
        bounded: e + 1 < f.echelons.len() && !f.loose,
        slot: Slot::Even { index: index as usize, of: total as usize },
    }
}

/// The first `n` battalions of the line are placed.
pub open spec fn line_upto(
    d: &Deployment,
    b: &DeployBook,
    st: DeployView,
    f: Formation,
    order: Seq<usize>,
    n: nat,
) -> Result<DeployView, Asked>
    decreases n,
{
    if n == 0 {
        Ok(st)
    } else {
        match line_upto(d, b, st, f, order, (n - 1) as nat) {
            Err(q) => Err(q),
            Ok(s) => {
                let i = order[n - 1] as int;
                match best_site(d, b, s.used, line_search(d, s, f, order, n - 1)) {
                    Err(search) => Err(Asked { search, line: Seq::empty() }),
                    Ok(None) => Ok(s),
                    Ok(Some(h)) => Ok(
                        DeployView { placed: s.placed.push((s.units[i].division, h)), ..put(s, i, h) },
                    ),
                }
            },
        }
    }
}

// ---- observers ----

/// How many observers a defender posts.
pub open spec fn observer_quota(d: &Deployment, st: DeployView) -> nat {
    let line = count_where(st.units, of_whole_line(d, st.garrison));
    let want = at_least_one(line / (OBSERVER_QUOTA_DIV as nat));
    if want < line {
        want
    } else {
        line
    }
}

/// The observers, the weakest of the line, by index.
pub open spec fn observers_of(d: &Deployment, st: DeployView) -> Seq<usize> {
    let pool = weakest_first(
        st.units,
        those_where(indices(st.units.len()), line_candidate(d, st.units, st.garrison)),
    );
    if observer_quota(d, st) < pool.len() {
        pool.take(observer_quota(d, st) as int)
    } else {
        pool
    }
}

/// The first `n` observers go up to the crests.
pub open spec fn observers_upto(
    d: &Deployment,
    b: &DeployBook,
    st: DeployView,
    shape: Shape,
    posts: Seq<usize>,
    n: nat,
) -> Result<DeployView, Asked>
    decreases n,
{
    if n == 0 {
        Ok(st)
    } else {
        match observers_upto(d, b, st, shape, posts, (n - 1) as nat) {
            Err(q) => Err(q),
            Ok(s) => {
                let i = posts[n - 1] as int;
                let u = s.units[i];
                let search = Search::Crest {
                    sector: sector_of(d, s.units, s.garrison, shape, u.division, true),
                    near: u.position,
                };
                match best_site(d, b, s.used, search) {
                    Err(search) => Err(Asked { search, line: Seq::empty() }),
                    Ok(None) => Ok(s),
                    Ok(Some(h)) => Ok(put(s, i, h)),
                }
            },
        }
    }
}

// ---- support ----

/// The line of a division.
pub open spec fn of_division(division: usize) -> spec_fn((usize, HexCoord)) -> bool {
    |e: (usize, HexCoord)| e.0 == division
}

/// The hexes of placed battalions.
pub open spec fn hexes_of(placed: Seq<(usize, HexCoord)>) -> Seq<HexCoord> {
    placed.map_values(|e: (usize, HexCoord)| e.1)
}

/// The line of a battalion's division; a battalion of no division has the whole
/// line.
pub open spec fn own_line(st: DeployView, division: usize) -> Seq<HexCoord> {
    if division == 0 {
        hexes_of(st.placed)
    } else {
        hexes_of(those_where(st.placed, of_division(division)))
    }
}

/// How far hexes are from the enemy's zone, all together.
pub open spec fn front_sum(d: &Deployment, hexes: Seq<HexCoord>) -> int
    decreases hexes.len(),
{
    if hexes.len() == 0 {
        0
    } else {
        front_sum(d, hexes.drop_last()) + front_of(d, hexes.last())
    }
}

/// The hexes that a support battalion stands behind: its division's line, else
/// the whole line, else the city.
pub open spec fn support_reference(d: &Deployment, st: DeployView, division: usize) -> Seq<HexCoord> {
    let own = hexes_of(those_where(st.placed, of_division(division)));
    if division != 0 && own.len() > 0 {
        own
    } else if st.placed.len() > 0 {
        hexes_of(st.placed)
    } else if d.side == Side::Defender {
        city_hexes(d)
    } else {
        Seq::empty()
    }
}

/// How far behind the line a support battalion stands: flak three hexes,
/// anti-tank guns two, artillery half its range, between one and four.
pub open spec fn standoff(u: BattalionUnit) -> int {
    if u.kind.anti_air {
        3
    } else if u.kind.anti_tank {
        2
    } else if u.attack_range / 2 < 1 {
        1
    } else if u.attack_range / 2 > 4 {
        4
    } else {
        u.attack_range / 2
    }
}

/// The distance that a support battalion aims at.
pub open spec fn support_target(d: &Deployment, st: DeployView, f: Formation, u: BattalionUnit) -> Target {
    let line = support_reference(d, st, u.division);
    if line.len() == 0 {
        Target { sum: band_base(d, f) as i128, count: 2, offset: standoff(u) as i128 }
    } else {
        Target {
            sum: front_sum(d, line) as i128,
            count: line.len() as i128,
            offset: standoff(u) as i128,
        }
    }
}

/// Where along its sector the `index`-th support battalion of its division
/// aims: a defender's guns cluster behind their line.
pub open spec fn support_slot(d: &Deployment, st: DeployView, u: BattalionUnit, index: nat) -> Slot {
    if d.side == Side::Defender && own_line(st, u.division).len() > 0 {
        Slot::Cluster { index: index as usize }
    } else {
        Slot::Even {
            index: index as usize,
            of: at_least_one(count_where(st.units, counted_support(d, st.garrison, u.division))) as usize,
        }
    }
}

/// The hex of a support battalion: in its band, or anywhere in its sector where
/// the band has no room.
pub open spec fn support_site(d: &Deployment, b: &DeployBook, st: DeployView, f: Formation, who: usize, index: nat) -> Result<
    Option<HexCoord>,
    Search,
> {
    let u = st.units[who as int];
    let sector = sector_of(d, st.units, st.garrison, f.shape, u.division, false);
    let target = support_target(d, st, f, u);
    let slot = support_slot(d, st, u, index);
    match best_site(d, b, st.used, Search::Band { who, sector, target, bounded: !f.loose, slot }) {
        Ok(None) => best_site(d, b, st.used, Search::Ground { who, sector, target, slot }),
        found => found,
    }
}

/// The first `n` support battalions are placed.
pub open spec fn support_upto(
    d: &Deployment,
    b: &DeployBook,
    st: DeployView,
    f: Formation,
    guns: Seq<usize>,
    n: nat,
) -> Result<DeployView, Asked>
    decreases n,
{
    if n == 0 {
        Ok(st)
    } else {
        match support_upto(d, b, st, f, guns, (n - 1) as nat) {
            Err(q) => Err(q),
            Ok(s) => {
                let who = guns[n - 1];
                let division = s.units[who as int].division;
                let index = count_where(guns.take(n - 1), in_same_division(s.units, division));
                match support_site(d, b, s, f, who, index) {
                    Err(search) => Err(Asked { search, line: own_line(s, division) }),
                    Ok(None) => Ok(s),
                    Ok(Some(h)) => Ok(put(s, who as int, h)),
                }
            },
        }
    }
}

// ---- headquarters ----

/// The placed battalions that a headquarters commands.
pub open spec fn commanded(d: &Deployment, division: usize) -> spec_fn(BattalionUnit) -> bool {
    |u: BattalionUnit|
        u.side == d.side && !u.kind.hq && u.division == division && u.position != offboard_hex()
}

/// The sum of the coordinates of battalions.
pub open spec fn place_sum(units: Seq<BattalionUnit>) -> (int, int)
    decreases units.len(),
{
    if units.len() == 0 {
        (0, 0)
    } else {
        let (q, r) = place_sum(units.drop_last());
        (q + units.last().position.q, r + units.last().position.r)
    }
}

/// The whole number nearest to a fraction; halves go away from zero.
pub open spec fn rounded(sum: int, count: int) -> int {
    if sum >= 0 {
        (2 * sum + count) / (2 * count)
    } else {
        -((2 * (-sum) + count) / (2 * count))
    }
}

/// The middle of the battalions that a headquarters commands.
pub open spec fn command_anchor(d: &Deployment, units: Seq<BattalionUnit>, division: usize) -> Option<HexCoord> {
    let members = those_where(units, commanded(d, division));
    if members.len() == 0 {
        None
    } else {
        let (q, r) = place_sum(members);
        Some(
            HexCoord {
                q: rounded(q, members.len() as int) as i32,
                r: rounded(r, members.len() as int) as i32,
            },
        )
    }
}

/// The first `n` headquarters are placed.
pub open spec fn hqs_upto(d: &Deployment, b: &DeployBook, st: DeployView, hqs: Seq<usize>, n: nat) -> Result<
    DeployView,
    Asked,
>
    decreases n,
{
    if n == 0 {
        Ok(st)
    } else {
        match hqs_upto(d, b, st, hqs, (n - 1) as nat) {
            Err(q) => Err(q),
            Ok(s) => {
                let i = hqs[n - 1] as int;
                let anchor = command_anchor(d, s.units, s.units[i].division);
                match best_site(d, b, s.used, Search::Rear { anchor }) {
                    Err(search) => Err(Asked { search, line: Seq::empty() }),
                    Ok(None) => Ok(s),
                    Ok(Some(h)) => Ok(put(s, i, h)),
                }
            },
        }
    }
}

// ---- the deployment ----

/// The observers of a defender are posted.
pub open spec fn observed(d: &Deployment, b: &DeployBook, st: DeployView, f: Formation) -> Result<
    DeployView,
    Asked,
> {
    if d.side == Side::Defender {
        let posts = observers_of(d, st);
        observers_upto(d, b, st, f.shape, posts, posts.len())
    } else {
        Ok(st)
    }
}

/// The support is placed.
pub open spec fn supported(d: &Deployment, b: &DeployBook, st: DeployView, f: Formation) -> Result<
    DeployView,
    Asked,
> {
    let guns = those_where(indices(st.units.len()), support_candidate(d, st.units, st.garrison));
    support_upto(d, b, st, f, guns, guns.len())
}

/// The headquarters are placed.
pub open spec fn headed(d: &Deployment, b: &DeployBook, st: DeployView) -> Result<DeployView, Asked> {
    let hqs = hqs_of(d, st.units);
    hqs_upto(d, b, st, hqs, hqs.len())
}

/// The garrison is placed.
pub open spec fn garrisoned(d: &Deployment, b: &DeployBook, st: DeployView) -> Result<DeployView, Asked> {
    let chosen = garrison_of(d, st.units);
    garrison_upto(d, b, st, chosen, chosen.len())
}

/// The line is placed.
pub open spec fn lined_up(d: &Deployment, b: &DeployBook, st: DeployView, f: Formation) -> Result<
    DeployView,
    Asked,
> {
    let order = line_order(d, st, f);
    line_upto(d, b, st, f, order, order.len())
}

/// The deployment of a side, one pass after the other; without a zone, or
/// without an enemy's zone, nobody is placed.
pub open spec fn deployed(
    d: &Deployment,
    b: &DeployBook,
    units: Seq<BattalionUnit>,
    pre_used: Seq<HexCoord>,
) -> Result<DeployView, Asked> {
    let f = formation_of(d.side == Side::Defender, d.tactic);
    let start = DeployView { units, used: pre_used, garrison: Seq::empty(), placed: Seq::empty() };
    if d.zone@.len() == 0 || d.enemy_zone@.len() == 0 {
        Ok(start)
    } else {
        match garrisoned(d, b, start) {
            Err(q) => Err(q),
            Ok(s1) => match lined_up(d, b, s1, f) {
                Err(q) => Err(q),
                Ok(s2) => match observed(d, b, s2, f) {
                    Err(q) => Err(q),
                    Ok(s3) => match supported(d, b, s3, f) {
                        Err(q) => Err(q),
                        Ok(s4) => headed(d, b, s4),
                    },
                },
            },
        }
    }
}

// ---- carrying it out ----

/// The distances are those of the zone's hexes from the enemy's zone, and each
/// hex has its line of sight.
pub open spec fn measured(d: &Deployment, fronts: Seq<i64>) -> bool {
    &&& fronts.len() == d.zone@.len()
    &&& d.sightlines@.len() == d.zone@.len()
    &&& forall|i: int| 0 <= i < d.zone@.len() ==> (#[trigger] fronts[i]) == front_of(d, d.zone@[i])
}

/// How far a distance from the enemy's zone may be.
pub const MAX_FRONT: i128 = 0x2_0000_0000;

/// How far a hex is from the enemy's zone.
fn front_distance(enemy_zone: &Vec<HexCoord>, h: HexCoord) -> (m: i64)
    ensures
        m == match nearest_hex(enemy_zone@, h) {
            Some(m) => m,
            None => 0,
        },
        0 <= m <= MAX_FRONT,
{
    match nearest_of(enemy_zone, h) {
        Some(m) => m,
        None => 0,
    }
}

fn touches(used: &Vec<HexCoord>, h: HexCoord) -> (b: bool)
    ensures
        b == is_crowded(used@, h),
{
    let mut i: usize = 0;
    while i < used.len()
        invariant
            i <= used@.len(),
            forall|j: int| 0 <= j < i ==> hex_distance(#[trigger] used@[j], h) > 1,
        decreases used@.len() - i,
    {
        if used[i].distance(h) <= 1 {
            assert(hex_distance(used@[i as int], h) <= 1);
            return true;
        }
        i += 1;
    }
    false
}

/// The target is small enough to reckon with.
pub open spec fn target_ok(t: Target) -> bool {
    &&& 0 < t.count <= 0x1_0000_0000_0000_0000
    &&& 0 <= t.sum <= 0x2_0000_0000 * 0x1_0000_0000_0000_0000
    &&& -0x1_0000_0000 <= t.offset <= 0x1_0000_0000
}

/// The targets of a search are small enough to reckon with.
pub open spec fn search_ok(s: Search) -> bool {
    match s {
        Search::Band { who: _, sector: _, target, bounded: _, slot: _ } => target_ok(target),
        _ => true,
    }
}

fn lies_in_band(distance: i64, target: Target, bounded: bool) -> (b: bool)
    requires
        0 <= distance <= MAX_FRONT,
        target_ok(target),
    ensures
        b == in_band(distance as int, target, bounded),
{
    let gap: i128 = distance as i128 - target.offset;
    let c2: i128 = 2 * target.count;
    proof {
        assert(-0x1_0000_0000 <= gap <= 0x3_0000_0000);
        assert(-0x2_0000_0000_0000_0000 * 0x1_0000_0000 <= c2 * gap <= 0x2_0000_0000_0000_0000
            * 0x3_0000_0000) by (nonlinear_arith)
            requires
                0 < c2 <= 0x2_0000_0000_0000_0000,
                -0x1_0000_0000 <= gap <= 0x3_0000_0000,
        ;
    }
    let away: i128 = c2 * gap - 2 * target.sum;
    let slack: i128 = 3 * target.count;
    0 - slack <= away && (!bounded || away <= 23 * target.count)
}

/// The rank of the `i`-th hex of the zone in a search.
fn rank_site(d: &Deployment, fronts: &Vec<i64>, used: &Vec<HexCoord>, s: Search, row: SiteRow, i: usize) -> (k: Option<Key>)
    requires
        measured(d, fronts@),
        i < d.zone@.len(),
        search_ok(s),
    ensures
        k == site_key(d, used@, s, row, i as int),
{
    let h = d.zone[i];
    if is_reserved(used, h) {
        return None;
    }
    proof {
        lemma_front_is_bounded(d, h);
        assert(fronts@[i as int] == front_of(d, h));
    }
    match s {
        Search::Garrison { who: _ } => {
            if !d.grid.is_urban(h) {
                return None;
            }
            let score: i64 = if touches(used, h) {
                row.crowded
            } else {
                row.open
            };
            Some(Key { a: score as i128, b: h.q as i128, c: h.r as i128, d: 0 })
        },
        Search::Band { who: _, sector: _, target, bounded, slot: _ } => {
            if !row.inside || !lies_in_band(fronts[i], target, bounded) {
                return None;
            }
            Some(rank_worth(row, used, h))
        },
        Search::Ground { who: _, sector: _, target: _, slot: _ } => {
            if !row.inside {
                return None;
            }
            Some(rank_worth(row, used, h))
        },
        Search::Crest { sector: _, near } => {
            if !row.inside || !on_crest(d.grid, h, &d.sightlines[i]) {
                return None;
            }
            let away: i64 = h.distance(near);
            let up: i64 = elevation_at(d.grid, h);
            Some(Key { a: away as i128, b: -(up as i128), c: 0, d: 0 })
        },
        Search::Rear { anchor } => {
            let a: i128 = match anchor {
                Some(c) => {
                    let off: i64 = h.distance(c) - HQ_DEPLOY_LEASH;
                    if off > 0 {
                        off as i128
                    } else {
                        0
                    }
                },
                None => 0,
            };
            Some(Key { a, b: -(fronts[i] as i128), c: 0, d: 0 })
        },
    }
}

fn rank_worth(row: SiteRow, used: &Vec<HexCoord>, h: HexCoord) -> (k: Key)
    ensures
        k == worth_key(row, used@, h),
{
    let score: i64 = if touches(used, h) {
        row.crowded
    } else {
        row.open
    };
    Key { a: -(score as i128), b: row.near as i128, c: -(h.q as i128), d: -(h.r as i128) }
}

proof fn lemma_front_is_bounded(d: &Deployment, h: HexCoord)
    ensures
        0 <= front_of(d, h) <= MAX_FRONT,
{
    lemma_nearest_is_bounded(d.enemy_zone@, h);
}

proof fn lemma_nearest_is_bounded(s: Seq<HexCoord>, h: HexCoord)
    ensures
        nearest_hex(s, h) matches Some(m) ==> 0 <= m <= MAX_FRONT,
    decreases s.len(),
{
    if s.len() > 0 {
        lemma_nearest_is_bounded(s.drop_last(), h);
    }
}

fn find_table(d: &Deployment, b: &DeployBook, s: Search) -> (k: Option<usize>)
    ensures
        match k {
            Some(i) => first_where(b.tables@, table_of(d, s)) == Some(i as int) && i < b.tables@.len()
                && b.tables@[i as int].rows@.len() == d.zone@.len(),
            None => first_where(b.tables@, table_of(d, s)) is None,
        },
{
    let ghost ok = table_of(d, s);
    let mut i: usize = 0;
    while i < b.tables.len()
        invariant
            i <= b.tables@.len(),
            ok == table_of(d, s),
            forall|j: int| 0 <= j < i ==> !ok(#[trigger] b.tables@[j]),
        decreases b.tables@.len() - i,
    {
        if b.tables[i].search == s && b.tables[i].rows.len() == d.zone.len() {
            proof {
                law_first_where(b.tables@, ok);
                assert(ok(b.tables@[i as int]));
            }
            return Some(i);
        }
        i += 1;
    }
    proof {
        law_first_where(b.tables@, ok);
    }
    None
}

fn rank_rows(d: &Deployment, fronts: &Vec<i64>, used: &Vec<HexCoord>, s: Search, rows: &Vec<SiteRow>) -> (keys: Vec<Option<Key>>)
    requires
        measured(d, fronts@),
        search_ok(s),
        rows@.len() == d.zone@.len(),
    ensures
        keys@ == site_keys(d, used@, s, rows@),
{
    let mut keys: Vec<Option<Key>> = Vec::new();
    let mut i: usize = 0;
    while i < rows.len()
        invariant
            i <= rows@.len(),
            measured(d, fronts@),
            search_ok(s),
            rows@.len() == d.zone@.len(),
            keys@ =~= site_keys(d, used@, s, rows@).take(i as int),
        decreases rows@.len() - i,
    {
        keys.push(rank_site(d, fronts, used, s, rows[i], i));
        i += 1;
    }
    assert(keys@ =~= site_keys(d, used@, s, rows@));
    keys
}

fn rank_rear(d: &Deployment, fronts: &Vec<i64>, used: &Vec<HexCoord>, s: Search) -> (keys: Vec<Option<Key>>)
    requires
        measured(d, fronts@),
        search_ok(s),
    ensures
        keys@ == site_keys(d, used@, s, Seq::new(d.zone@.len(), |i: int| no_row())),
{
    let ghost rows = Seq::new(d.zone@.len(), |i: int| no_row());
    let mut keys: Vec<Option<Key>> = Vec::new();
    let mut i: usize = 0;
    while i < d.zone.len()
        invariant
            i <= d.zone@.len(),
            measured(d, fronts@),
            search_ok(s),
            rows == Seq::new(d.zone@.len(), |i: int| no_row()),
            keys@ =~= site_keys(d, used@, s, rows).take(i as int),
        decreases d.zone@.len() - i,
    {
        let row = SiteRow { inside: true, near: 0, open: 0, crowded: 0 };
        keys.push(rank_site(d, fronts, used, s, row, i));
        i += 1;
    }
    assert(keys@ =~= site_keys(d, used@, s, rows));
    keys
}

/// The best hex of the zone in a search.
fn find_site(d: &Deployment, fronts: &Vec<i64>, b: &DeployBook, used: &Vec<HexCoord>, s: Search) -> (r: Result<
    Option<HexCoord>,
    Search,
>)
    requires
        measured(d, fronts@),
        search_ok(s),
    ensures
        r == best_site(d, b, used@, s),
{
    let rear = match s {
        Search::Rear { anchor: _ } => true,
        _ => false,
    };
    let keys: Vec<Option<Key>> = if rear {
        rank_rear(d, fronts, used, s)
    } else {
        match find_table(d, b, s) {
            None => {
                return Err(s);
            },
            Some(k) => rank_rows(d, fronts, used, s, &b.tables[k].rows),
        }
    };
    match find_least(&keys) {
        Some(k) => Ok(Some(d.zone[k])),
        None => Ok(None),
    }
}

fn holds_id(ids: &Vec<usize>, id: usize) -> (b: bool)
    ensures
        b == ids@.contains(id),
{
    let mut i: usize = 0;
    while i < ids.len()
        invariant
            i <= ids@.len(),
            forall|j: int| 0 <= j < i ==> ids@[j] != id,
        decreases ids@.len() - i,
    {
        if ids[i] == id {
            assert(ids@[i as int] == id);
            return true;
        }
        i += 1;
    }
    false
}

fn may_place(d: &Deployment, u: &BattalionUnit) -> (b: bool)
    ensures
        b == placeable(d, *u),
{
    u.side == d.side && (!d.only_undeployed || u.undeployed)
}

fn of_division_placed(d: &Deployment, u: &BattalionUnit) -> (b: bool)
    ensures
        b == in_division(d, *u),
{
    match d.only_division {
        Some(n) => u.division == n,
        None => true,
    }
}

fn is_line_unit(u: &BattalionUnit) -> (b: bool)
    ensures
        b == of_line(*u),
{
    u.is_combat_effective() && u.attack_range <= 1 && !u.kind.hq && !u.kind.anti_air
}

fn is_support_unit(u: &BattalionUnit) -> (b: bool)
    ensures
        b == of_support(*u),
{
    u.is_combat_effective() && (u.attack_range > 1 || u.kind.anti_air)
}

/// All of them are indices of battalions.
pub open spec fn are_units(units: Seq<BattalionUnit>, s: Seq<usize>) -> bool {
    forall|k: int| 0 <= k < s.len() ==> (#[trigger] s[k]) < units.len()
}

fn garrison_pool(d: &Deployment, units: &Vec<BattalionUnit>) -> (v: Vec<usize>)
    ensures
        v@ == those_where(indices(units@.len()), garrison_candidate(d, units@)),
        are_units(units@, v@),
{
    let ghost all = indices(units@.len());
    let ghost ok = garrison_candidate(d, units@);
    let mut v: Vec<usize> = Vec::new();
    let mut i: usize = 0;
    assert(all.take(0) =~= Seq::<usize>::empty());
    while i < units.len()
        invariant
            i <= units@.len(),
            all == indices(units@.len()),
            ok == garrison_candidate(d, units@),
            v@ == those_where(all.take(i as int), ok),
            are_units(units@, v@),
        decreases units@.len() - i,
    {
        proof {
            assert(all.take(i + 1).drop_last() =~= all.take(i as int));
            assert(all.take(i + 1).last() == i);
        }
        let u = units[i];
        if may_place(d, &u) && of_division_placed(d, &u) && u.is_combat_effective() && u.attack_range <= 1
            && !u.kind.hq {
            v.push(i);
        }
        i += 1;
    }
    assert(all.take(units@.len() as int) =~= all);
    v
}

fn line_pool(d: &Deployment, units: &Vec<BattalionUnit>, garrison: &Vec<usize>) -> (v: Vec<usize>)
    ensures
        v@ == those_where(indices(units@.len()), line_candidate(d, units@, garrison@)),
        are_units(units@, v@),
{
    let ghost all = indices(units@.len());
    let ghost ok = line_candidate(d, units@, garrison@);
    let mut v: Vec<usize> = Vec::new();
    let mut i: usize = 0;
    assert(all.take(0) =~= Seq::<usize>::empty());
    while i < units.len()
        invariant
            i <= units@.len(),
            all == indices(units@.len()),
            ok == line_candidate(d, units@, garrison@),
            v@ == those_where(all.take(i as int), ok),
            are_units(units@, v@),
        decreases units@.len() - i,
    {
        proof {
            assert(all.take(i + 1).drop_last() =~= all.take(i as int));
            assert(all.take(i + 1).last() == i);
        }
        let u = units[i];
        if may_place(d, &u) && of_division_placed(d, &u) && is_line_unit(&u) && !holds_id(garrison, u.id) {
            v.push(i);
        }
        i += 1;
    }
    assert(all.take(units@.len() as int) =~= all);
    v
}

fn support_pool(d: &Deployment, units: &Vec<BattalionUnit>, garrison: &Vec<usize>) -> (v: Vec<usize>)
    ensures
        v@ == those_where(indices(units@.len()), support_candidate(d, units@, garrison@)),
        are_units(units@, v@),
{
    let ghost all = indices(units@.len());
    let ghost ok = support_candidate(d, units@, garrison@);
    let mut v: Vec<usize> = Vec::new();
    let mut i: usize = 0;
    assert(all.take(0) =~= Seq::<usize>::empty());
    while i < units.len()
        invariant
            i <= units@.len(),
            all == indices(units@.len()),
            ok == support_candidate(d, units@, garrison@),
            v@ == those_where(all.take(i as int), ok),
            are_units(units@, v@),
        decreases units@.len() - i,
    {
        proof {
            assert(all.take(i + 1).drop_last() =~= all.take(i as int));
            assert(all.take(i + 1).last() == i);
        }
        let u = units[i];
        if may_place(d, &u) && of_division_placed(d, &u) && is_support_unit(&u) && !holds_id(
            garrison,
            u.id,
        ) {
            v.push(i);
        }
        i += 1;
    }
    assert(all.take(units@.len() as int) =~= all);
    v
}

fn hq_pool(d: &Deployment, units: &Vec<BattalionUnit>) -> (v: Vec<usize>)
    ensures
        v@ == hqs_of(d, units@),
        are_units(units@, v@),
{
    let ghost all = indices(units@.len());
    let ghost ok = hq_candidate(d, units@);
    let ghost by_id = |i: usize| namesake(units@, i as int);
    let mut v: Vec<usize> = Vec::new();
    let mut i: usize = 0;
    assert(all.take(0) =~= Seq::<usize>::empty());
    assert(v@ =~= those_where(all.take(0), ok).map_values(by_id));
    while i < units.len()
        invariant
            i <= units@.len(),
            all == indices(units@.len()),
            ok == hq_candidate(d, units@),
            by_id == (|i: usize| namesake(units@, i as int)),
            v@ == those_where(all.take(i as int), ok).map_values(by_id),
            are_units(units@, v@),
        decreases units@.len() - i,
    {
        proof {
            assert(all.take(i + 1).drop_last() =~= all.take(i as int));
            assert(all.take(i + 1).last() == i);
        }
        let u = units[i];
        if may_place(d, &u) && of_division_placed(d, &u) && u.is_combat_effective() && u.kind.hq {
            v.push(find_namesake(units.as_slice(), i));
        }
        assert(v@ =~= those_where(all.take(i + 1), ok).map_values(by_id));
        i += 1;
    }
    assert(all.take(units@.len() as int) =~= all);
    v
}

fn count_counted(d: &Deployment, units: &Vec<BattalionUnit>, garrison: &Vec<usize>, division: usize) -> (n: usize)
    ensures
        n == count_where(units@, counted(d, garrison@, division)),
{
    let ghost ok = counted(d, garrison@, division);
    let mut n: usize = 0;
    let mut i: usize = 0;
    assert(units@.take(0) =~= Seq::<BattalionUnit>::empty());
    while i < units.len()
        invariant
            i <= units@.len(),
            n <= i,
            ok == counted(d, garrison@, division),
            n == count_where(units@.take(i as int), ok),
        decreases units@.len() - i,
    {
        assert(units@.take(i + 1).drop_last() =~= units@.take(i as int));
        let u = units[i];
        if may_place(d, &u) && u.is_combat_effective() && !u.kind.hq && !holds_id(garrison, u.id)
            && u.division == division {
            n += 1;
        }
        i += 1;
    }
    assert(units@.take(units@.len() as int) =~= units@);
    n
}

fn count_line(d: &Deployment, units: &Vec<BattalionUnit>, garrison: &Vec<usize>, division: usize) -> (n: usize)
    ensures
        n == count_where(units@, counted_line(d, garrison@, division)),
{
    let ghost ok = counted_line(d, garrison@, division);
    let mut n: usize = 0;
    let mut i: usize = 0;
    assert(units@.take(0) =~= Seq::<BattalionUnit>::empty());
    while i < units.len()
        invariant
            i <= units@.len(),
            n <= i,
            ok == counted_line(d, garrison@, division),
            n == count_where(units@.take(i as int), ok),
        decreases units@.len() - i,
    {
        assert(units@.take(i + 1).drop_last() =~= units@.take(i as int));
        let u = units[i];
        if may_place(d, &u) && is_line_unit(&u) && !holds_id(garrison, u.id) && u.division == division {
            n += 1;
        }
        i += 1;
    }
    assert(units@.take(units@.len() as int) =~= units@);
    n
}

fn count_support(d: &Deployment, units: &Vec<BattalionUnit>, garrison: &Vec<usize>, division: usize) -> (n: usize)
    ensures
        n == count_where(units@, counted_support(d, garrison@, division)),
{
    let ghost ok = counted_support(d, garrison@, division);
    let mut n: usize = 0;
    let mut i: usize = 0;
    assert(units@.take(0) =~= Seq::<BattalionUnit>::empty());
    while i < units.len()
        invariant
            i <= units@.len(),
            n <= i,
            ok == counted_support(d, garrison@, division),
            n == count_where(units@.take(i as int), ok),
        decreases units@.len() - i,
    {
        assert(units@.take(i + 1).drop_last() =~= units@.take(i as int));
        let u = units[i];
        if may_place(d, &u) && is_support_unit(&u) && !u.kind.hq && !holds_id(garrison, u.id)
            && u.division == division {
            n += 1;
        }
        i += 1;
    }
    assert(units@.take(units@.len() as int) =~= units@);
    n
}

fn count_whole_line(d: &Deployment, units: &Vec<BattalionUnit>, garrison: &Vec<usize>) -> (n: usize)
    ensures
        n == count_where(units@, of_whole_line(d, garrison@)),
{
    let ghost ok = of_whole_line(d, garrison@);
    let mut n: usize = 0;
    let mut i: usize = 0;
    assert(units@.take(0) =~= Seq::<BattalionUnit>::empty());
    while i < units.len()
        invariant
            i <= units@.len(),
            n <= i,
            ok == of_whole_line(d, garrison@),
            n == count_where(units@.take(i as int), ok),
        decreases units@.len() - i,
    {
        assert(units@.take(i + 1).drop_last() =~= units@.take(i as int));
        let u = units[i];
        if may_place(d, &u) && is_line_unit(&u) && !holds_id(garrison, u.id) {
            n += 1;
        }
        i += 1;
    }
    assert(units@.take(units@.len() as int) =~= units@);
    n
}

/// How many of the first `n` of the battalions are of a division.
fn count_same(units: &Vec<BattalionUnit>, pool: &Vec<usize>, n: usize, division: usize) -> (c: usize)
    requires
        n <= pool@.len(),
        are_units(units@, pool@),
    ensures
        c == count_where(pool@.take(n as int), in_same_division(units@, division)),
        c <= n,
{
    let ghost ok = in_same_division(units@, division);
    let ghost part = pool@.take(n as int);
    let mut c: usize = 0;
    let mut i: usize = 0;
    assert(part.take(0) =~= Seq::<usize>::empty());
    while i < n
        invariant
            i <= n <= pool@.len(),
            c <= i,
            are_units(units@, pool@),
            part == pool@.take(n as int),
            ok == in_same_division(units@, division),
            c == count_where(part.take(i as int), ok),
        decreases n - i,
    {
        assert(part.take(i + 1).drop_last() =~= part.take(i as int));
        assert(part.take(i + 1).last() == pool@[i as int]);
        if units[pool[i]].division == division {
            c += 1;
        }
        i += 1;
    }
    assert(part.take(n as int) =~= part);
    c
}

fn rank_weakest(units: &Vec<BattalionUnit>, pool: &Vec<usize>) -> (out: Vec<usize>)
    requires
        are_units(units@, pool@),
    ensures
        out@ == weakest_first(units@, pool@),
        are_units(units@, out@),
{
    let mut keys: Vec<Key> = Vec::new();
    let mut i: usize = 0;
    while i < pool.len()
        invariant
            i <= pool@.len(),
            are_units(units@, pool@),
            keys@ =~= weakness_ranks(units@, pool@).take(i as int),
        decreases pool@.len() - i,
    {
        keys.push(
            Key { a: units[pool[i]].org_ratio as i128, b: pool[i] as i128, c: 0, d: 0 },
        );
        i += 1;
    }
    assert(keys@ =~= weakness_ranks(units@, pool@));
    let order: Vec<usize> = rank(&keys);
    let ghost pick = |k: usize| pool@[k as int];
    let mut out: Vec<usize> = Vec::new();
    let mut k: usize = 0;
    while k < order.len()
        invariant
            k <= order@.len(),
            order@.len() == pool@.len(),
            are_units(units@, pool@),
            are_units(units@, out@),
            pick == (|k: usize| pool@[k as int]),
            forall|k: int| 0 <= k < order@.len() ==> (#[trigger] order@[k]) < pool@.len(),
            out@ =~= order@.map_values(pick).take(k as int),
        decreases order@.len() - k,
    {
        out.push(pool[order[k]]);
        k += 1;
    }
    assert(out@ =~= order@.map_values(pick));
    out
}

fn is_all_in_city(d: &Deployment) -> (b: bool)
    ensures
        b == all_in_city(d),
{
    let urban = match d.tactic {
        CombatTactic::UrbanDefense => true,
        _ => false,
    };
    d.side == Side::Defender && urban
}

fn accept(d: &Deployment, units: &Vec<BattalionUnit>, pool: &Vec<usize>) -> (out: Vec<usize>)
    requires
        are_units(units@, pool@),
    ensures
        out@ == accepted_upto(d, units@, pool@, pool@.len()),
        are_units(units@, out@),
{
    let all = is_all_in_city(d);
    let mut out: Vec<usize> = Vec::new();
    let mut n: usize = 0;
    while n < pool.len()
        invariant
            n <= pool@.len(),
            all == all_in_city(d),
            are_units(units@, pool@),
            are_units(units@, out@),
            out@ == accepted_upto(d, units@, pool@, n as nat),
        decreases pool@.len() - n,
    {
        let division: usize = units[pool[n]].division;
        let in_pool: usize = count_same(units, pool, pool.len(), division);
        let accepted: usize = count_same(units, &out, out.len(), division);
        proof {
            assert(pool@.take(pool@.len() as int) =~= pool@);
            assert(out@.take(out@.len() as int) =~= out@);
        }
        let cap: usize = if in_pool / 3 < 1 {
            1
        } else {
            in_pool / 3
        };
        if all || accepted < cap {
            out.push(pool[n]);
        }
        n += 1;
    }
    out
}

fn find_city(d: &Deployment) -> (v: Vec<HexCoord>)
    ensures
        v@ == city_hexes(d),
{
    let ghost ok = urban_in(d);
    let mut v: Vec<HexCoord> = Vec::new();
    let mut i: usize = 0;
    assert(d.zone@.take(0) =~= Seq::<HexCoord>::empty());
    while i < d.zone.len()
        invariant
            i <= d.zone@.len(),
            ok == urban_in(d),
            v@ == those_where(d.zone@.take(i as int), ok),
        decreases d.zone@.len() - i,
    {
        assert(d.zone@.take(i + 1).drop_last() =~= d.zone@.take(i as int));
        if d.grid.is_urban(d.zone[i]) {
            v.push(d.zone[i]);
        }
        i += 1;
    }
    assert(d.zone@.take(d.zone@.len() as int) =~= d.zone@);
    v
}

fn choose_garrison(d: &Deployment, units: &Vec<BattalionUnit>) -> (out: Vec<usize>)
    ensures
        out@ == garrison_of(d, units@),
        are_units(units@, out@),
{
    let none: Vec<usize> = Vec::new();
    if d.side != Side::Defender {
        return none;
    }
    let city: usize = find_city(d).len();
    if city < 3 {
        return none;
    }
    let pool: Vec<usize> = rank_weakest(units, &garrison_pool(d, units));
    let mut accepted: Vec<usize> = accept(d, units, &pool);
    let size: usize = pool.len();
    let quota: usize = if is_all_in_city(d) {
        if size < city {
            size
        } else {
            city
        }
    } else if size < 6 {
        0
    } else if city / 3 < 3 {
        3
    } else if city / 3 > size / 2 {
        size / 2
    } else {
        city / 3
    };
    if quota < accepted.len() {
        accepted.truncate(quota);
        assert forall|k: int| 0 <= k < accepted@.len() implies (#[trigger] accepted@[k])
            < units@.len() by {
            assert(accepted@[k] == accepted_upto(d, units@, pool@, pool@.len())[k]);
        }
    }
    accepted
}

/// What a pass came to, as a value.
spec fn found_state(r: Result<DeployState, DeployQuestion>) -> Result<DeployView, Asked> {
    match r {
        Ok(s) => Ok(s@),
        Err(q) => Err(q@),
    }
}

fn put_on(st: DeployState, i: usize, h: HexCoord) -> (out: DeployState)
    requires
        i < st.units@.len(),
    ensures
        out@ == put(st@, i as int, h),
{
    let DeployState { mut units, mut used, garrison, placed } = st;
    let u = units[i].with_position(h);
    units.set(i, u);
    used.push(h);
    DeployState { units, used, garrison, placed }
}

fn no_line() -> (v: Vec<HexCoord>)
    ensures
        v@ == Seq::<HexCoord>::empty(),
{
    Vec::new()
}

proof fn lemma_garrison_asks(d: &Deployment, b: &DeployBook, st: DeployView, chosen: Seq<usize>, i: nat, n: nat, q: Asked)
    requires
        i <= n,
        garrison_upto(d, b, st, chosen, i) == Err::<DeployView, Asked>(q),
    ensures
        garrison_upto(d, b, st, chosen, n) == Err::<DeployView, Asked>(q),
    decreases n - i,
{
    if i < n {
        lemma_garrison_asks(d, b, st, chosen, i + 1, n, q);
    }
}

fn place_garrison(d: &Deployment, fronts: &Vec<i64>, b: &DeployBook, st: DeployState) -> (r: Result<DeployState, DeployQuestion>)
    requires
        measured(d, fronts@),
    ensures
        found_state(r) == garrisoned(d, b, st@),
        r matches Ok(s) ==> s.units@.len() == st.units@.len(),
{
    let chosen: Vec<usize> = choose_garrison(d, &st.units);
    let ghost start = st@;
    let mut s = st;
    let mut n: usize = 0;
    while n < chosen.len()
        invariant
            n <= chosen@.len(),
            measured(d, fronts@),
            start == st@,
            chosen@ == garrison_of(d, start.units),
            are_units(start.units, chosen@),
            s.units@.len() == start.units.len(),
            garrison_upto(d, b, start, chosen@, n as nat) == Ok::<DeployView, Asked>(s@),
        decreases chosen@.len() - n,
    {
        let who: usize = chosen[n];
        match find_site(d, fronts, b, &s.used, Search::Garrison { who }) {
            Err(search) => {
                proof {
                    lemma_garrison_asks(
                        d,
                        b,
                        start,
                        chosen@,
                        (n + 1) as nat,
                        chosen@.len(),
                        Asked { search, line: Seq::empty() },
                    );
                }
                return Err(DeployQuestion { search, line: no_line() });
            },
            Ok(None) => {},
            Ok(Some(h)) => {
                let id: usize = s.units[who].id;
                let mut next = put_on(s, who, h);
                next.garrison.push(id);
                s = next;
            },
        }
        n += 1;
    }
    Ok(s)
}

fn is_present(d: &Deployment, units: &Vec<BattalionUnit>, division: usize) -> (b: bool)
    ensures
        b == has_battalion(d, units@, division),
{
    let mut i: usize = 0;
    while i < units.len()
        invariant
            i <= units@.len(),
            forall|j: int|
                0 <= j < i ==> !(placeable(d, #[trigger] units@[j]) && units@[j].effective()
                    && !units@[j].kind.hq && units@[j].division == division),
        decreases units@.len() - i,
    {
        if may_place(d, &units[i]) && units[i].is_combat_effective() && !units[i].kind.hq
            && units[i].division == division {
            assert(placeable(d, units@[i as int]));
            return true;
        }
        i += 1;
    }
    false
}

fn find_divisions(d: &Deployment, units: &Vec<BattalionUnit>) -> (out: Vec<usize>)
    ensures
        out@ == divisions_of(d, units@),
{
    let mut out: Vec<usize> = Vec::new();
    match d.sector_divisions {
        Some(list) => {
            let mut n: usize = 0;
            while n < list.len()
                invariant
                    n <= list@.len(),
                    out@ == listed_upto(d, units@, list@, n as nat),
                decreases list@.len() - n,
            {
                if is_present(d, units, list[n]) && !holds_id(&out, list[n]) {
                    out.push(list[n]);
                }
                n += 1;
            }
        },
        None => match d.only_division {
            Some(n) => {
                out.push(n);
                assert(out@ =~= seq![n]);
            },
            None => {
                let mut n: usize = 0;
                while n < units.len()
                    invariant
                        n <= units@.len(),
                        out@ == roster_upto(d, units@, n as nat),
                    decreases units@.len() - n,
                {
                    let u = units[n];
                    if may_place(d, &u) && u.is_combat_effective() && !u.kind.hq && u.division != 0
                        && !holds_id(&out, u.division) {
                        out.push(u.division);
                    }
                    n += 1;
                }
            },
        },
    }
    out
}

/// Different divisions have no more battalions together than there are.
proof fn lemma_strength_fits(
    d: &Deployment,
    units: Seq<BattalionUnit>,
    garrison: Seq<usize>,
    divisions: Seq<usize>,
    n: nat,
)
    requires
        n <= divisions.len(),
        divisions.no_duplicates(),
    ensures
        strength_upto(d, units, garrison, divisions, n) <= count_where(
            units,
            counted_among(d, garrison, divisions.take(n as int)),
        ),
        strength_upto(d, units, garrison, divisions, n) <= units.len(),
    decreases n,
{
    let some = counted_among(d, garrison, divisions.take(n as int));
    crate::pick::law_those_where(units, some);
    if n > 0 {
        let m = (n - 1) as nat;
        lemma_strength_fits(d, units, garrison, divisions, m);
        lemma_counts_add(
            units,
            counted_among(d, garrison, divisions.take(m as int)),
            counted(d, garrison, divisions[m as int]),
            some,
            d,
            garrison,
            divisions,
            m,
        );
    }
}

/// The battalions of some divisions that take part of the front.
spec fn counted_among(d: &Deployment, garrison: Seq<usize>, divisions: Seq<usize>) -> spec_fn(BattalionUnit) -> bool {
    |u: BattalionUnit|
        placeable(d, u) && u.effective() && !u.kind.hq && !garrison.contains(u.id) && divisions.contains(
            u.division,
        )
}

proof fn lemma_counts_add(
    units: Seq<BattalionUnit>,
    first: spec_fn(BattalionUnit) -> bool,
    second: spec_fn(BattalionUnit) -> bool,
    both: spec_fn(BattalionUnit) -> bool,
    d: &Deployment,
    garrison: Seq<usize>,
    divisions: Seq<usize>,
    m: nat,
)
    requires
        m < divisions.len(),
        divisions.no_duplicates(),
        first == counted_among(d, garrison, divisions.take(m as int)),
        second == counted(d, garrison, divisions[m as int]),
        both == counted_among(d, garrison, divisions.take((m + 1) as int)),
    ensures
        count_where(units, first) + count_where(units, second) <= count_where(units, both),
    decreases units.len(),
{
    if units.len() > 0 {
        lemma_counts_add(units.drop_last(), first, second, both, d, garrison, divisions, m);
        let u = units.last();
        let before = divisions.take(m as int);
        let after = divisions.take((m + 1) as int);
        if before.contains(u.division) {
            let k = choose|k: int| 0 <= k < before.len() && before[k] == u.division;
            assert(after[k] == u.division);
            assert(divisions[k] != divisions[m as int]);
        }
        if u.division == divisions[m as int] {
            assert(after[m as int] == u.division);
        }
    }
}

proof fn lemma_listed_differ(d: &Deployment, units: Seq<BattalionUnit>, list: Seq<usize>, n: nat)
    ensures
        listed_upto(d, units, list, n).no_duplicates(),
    decreases n,
{
    if n > 0 {
        lemma_listed_differ(d, units, list, (n - 1) as nat);
    }
}

proof fn lemma_roster_differs(d: &Deployment, units: Seq<BattalionUnit>, n: nat)
    ensures
        roster_upto(d, units, n).no_duplicates(),
    decreases n,
{
    if n > 0 {
        lemma_roster_differs(d, units, (n - 1) as nat);
    }
}

/// No division is listed twice along the front.
proof fn lemma_divisions_differ(d: &Deployment, units: Seq<BattalionUnit>)
    ensures
        divisions_of(d, units).no_duplicates(),
{
    match d.sector_divisions {
        Some(list) => lemma_listed_differ(d, units, list@, list@.len()),
        None => lemma_roster_differs(d, units, units.len()),
    }
}

fn sum_strength(d: &Deployment, units: &Vec<BattalionUnit>, garrison: &Vec<usize>, divisions: &Vec<usize>, n: usize) -> (sum: usize)
    requires
        n <= divisions@.len(),
        divisions@ == divisions_of(d, units@),
    ensures
        sum == strength_upto(d, units@, garrison@, divisions@, n as nat),
        sum <= units@.len(),
{
    proof {
        lemma_divisions_differ(d, units@);
        lemma_strength_fits(d, units@, garrison@, divisions@, n as nat);
    }
    let mut sum: usize = 0;
    let mut i: usize = 0;
    let count: usize = units.len();
    while i < n
        invariant
            i <= n <= divisions@.len(),
            count == units@.len(),
            divisions@ == divisions_of(d, units@),
            divisions@.no_duplicates(),
            sum == strength_upto(d, units@, garrison@, divisions@, i as nat),
        decreases n - i,
    {
        proof {
            lemma_strength_fits(d, units@, garrison@, divisions@, (i + 1) as nat);
        }
        sum = sum + count_counted(d, units, garrison, divisions[i]);
        i += 1;
    }
    sum
}

fn find_place(divisions: &Vec<usize>, division: usize) -> (k: Option<usize>)
    ensures
        match k {
            Some(i) => first_where(divisions@, is_division(division)) == Some(i as int) && i < divisions@.len()
                && divisions@[i as int] == division,
            None => first_where(divisions@, is_division(division)) is None,
        },
{
    let ghost ok = is_division(division);
    let mut i: usize = 0;
    while i < divisions.len()
        invariant
            i <= divisions@.len(),
            ok == is_division(division),
            forall|j: int| 0 <= j < i ==> !ok(#[trigger] divisions@[j]),
        decreases divisions@.len() - i,
    {
        if divisions[i] == division {
            proof {
                law_first_where(divisions@, ok);
                assert(ok(divisions@[i as int]));
            }
            return Some(i);
        }
        i += 1;
    }
    proof {
        law_first_where(divisions@, ok);
    }
    None
}

fn find_division_sector(d: &Deployment, units: &Vec<BattalionUnit>, garrison: &Vec<usize>, shape: Shape, division: usize) -> (s: Option<
    Sector,
>)
    ensures
        s == division_sector(d, units@, garrison@, shape, division),
{
    let divisions: Vec<usize> = find_divisions(d, units);
    let k = match find_place(&divisions, division) {
        None => {
            return None;
        },
        Some(k) => k,
    };
    let own: usize = count_counted(d, units, garrison, division);
    if own == 0 {
        return None;
    }
    let before: usize = sum_strength(d, units, garrison, &divisions, k);
    let total: usize = sum_strength(d, units, garrison, &divisions, divisions.len());
    match shape {
        Shape::TwoWings(_) => {
            let half: usize = if total / 2 < 1 {
                1
            } else {
                total / 2
            };
            if before < half {
                Some(Sector { wing: Wing::Left, from: 0, to: 1, of: 1 })
            } else {
                Some(Sector { wing: Wing::Right, from: 0, to: 1, of: 1 })
            }
        },
        _ => {
            proof {
                lemma_divisions_differ(d, units@);
                lemma_strength_fits(d, units@, garrison@, divisions@, (k + 1) as nat);
            }
            let count: usize = units.len();
            assert(before + own <= count);
            Some(Sector { wing: Wing::Covered, from: before, to: before + own, of: total })
        },
    }
}

fn find_sector(
    d: &Deployment,
    units: &Vec<BattalionUnit>,
    garrison: &Vec<usize>,
    shape: Shape,
    division: usize,
    observer: bool,
) -> (s: Sector)
    ensures
        s == sector_of(d, units@, garrison@, shape, division, observer),
{
    match find_division_sector(d, units, garrison, shape, division) {
        Some(s) => s,
        None => {
            let wing = match shape {
                Shape::TwoWings(_) => if observer {
                    Wing::Left
                } else {
                    Wing::Whole
                },
                _ => Wing::Covered,
            };
            Sector { wing, from: 0, to: 1, of: 1 }
        },
    }
}

fn find_band_base(d: &Deployment, fronts: &Vec<i64>, profile: &DeployProfile) -> (b: i64)
    requires
        measured(d, fronts@),
        0 <= profile.band <= 100,
    ensures
        b == band_base(d, profile@),
        0 <= b <= 0x2_0000_0000,
{
    let mut edge: i64 = crate::turn::FAR;
    let mut n: usize = 0;
    while n < d.zone.len()
        invariant
            n <= d.zone@.len(),
            measured(d, fronts@),
            edge == edge_upto(d, n as nat),
            0 <= edge <= crate::turn::FAR,
        decreases d.zone@.len() - n,
    {
        proof {
            lemma_front_is_bounded(d, d.zone@[n as int]);
            assert(fronts@[n as int] == front_of(d, d.zone@[n as int]));
        }
        if fronts[n] < edge {
            edge = fronts[n];
        }
        n += 1;
    }
    let extra: i64 = profile.band - crate::formation::DEF_FRONT_BAND;
    2 * edge + if extra > 0 {
        extra
    } else {
        0
    }
}

fn put_armor_last(units: &Vec<BattalionUnit>, pool: &Vec<usize>) -> (out: Vec<usize>)
    requires
        are_units(units@, pool@),
    ensures
        ({
            let o = armor_last_upto(units@, pool@, pool@.len());
            out@ == o.head + o.tail
        }),
        are_units(units@, out@),
{
    let mut head: Vec<usize> = Vec::new();
    let mut tail: Vec<usize> = Vec::new();
    let mut last: usize = 0;
    let mut n: usize = 0;
    while n < pool.len()
        invariant
            n <= pool@.len(),
            are_units(units@, pool@),
            are_units(units@, head@),
            are_units(units@, tail@),
            (OrderView { head: head@, tail: tail@, last }) == armor_last_upto(units@, pool@, n as nat),
        decreases pool@.len() - n,
    {
        let i: usize = pool[n];
        let u = units[i];
        if u.division != last && last != 0 {
            let ghost joined = head@ + tail@;
            join(&mut head, &tail);
            tail = Vec::new();
            assert forall|k: int| 0 <= k < head@.len() implies (#[trigger] head@[k]) < units@.len() by {
                assert(head@ == joined);
            }
        }
        last = u.division;
        if u.kind.armor {
            tail.push(i);
        } else {
            head.push(i);
        }
        n += 1;
    }
    let ghost joined = head@ + tail@;
    join(&mut head, &tail);
    assert forall|k: int| 0 <= k < head@.len() implies (#[trigger] head@[k]) < units@.len() by {
        assert(head@ == joined);
    }
    head
}

fn join(to: &mut Vec<usize>, from: &Vec<usize>)
    ensures
        final(to)@ == old(to)@ + from@,
{
    let mut i: usize = 0;
    while i < from.len()
        invariant
            i <= from@.len(),
            to@ =~= old(to)@ + from@.take(i as int),
        decreases from@.len() - i,
    {
        to.push(from[i]);
        i += 1;
    }
    assert(from@.take(from@.len() as int) =~= from@);
}

fn find_line_order(d: &Deployment, st: &DeployState, profile: &DeployProfile) -> (out: Vec<usize>)
    ensures
        out@ == line_order(d, st@, profile@),
        are_units(st.units@, out@),
{
    let pool: Vec<usize> = line_pool(d, &st.units, &st.garrison);
    if profile.armor_reserve {
        put_armor_last(&st.units, &pool)
    } else {
        pool
    }
}

/// The formation can be reckoned with.
pub open spec fn profile_ok(p: &DeployProfile) -> bool {
    &&& 0 <= p.band <= 100
    &&& 0 < p.echelons@.len() <= 3
    &&& forall|k: int|
        0 <= k < p.echelons@.len() ==> 0 <= (#[trigger] p.echelons@[k]).share <= 100 && 0
            <= p.echelons@[k].offset <= 100
}

fn find_line_search(d: &Deployment, fronts: &Vec<i64>, st: &DeployState, profile: &DeployProfile, order: &Vec<usize>, k: usize) -> (s: Search)
    requires
        measured(d, fronts@),
        profile_ok(profile),
        k < order@.len(),
        are_units(st.units@, order@),
    ensures
        s == line_search(d, st@, profile@, order@, k as int),
        search_ok(s),
{
    let who: usize = order[k];
    let division: usize = st.units[who].division;
    let index: usize = count_same(&st.units, order, k, division);
    let line: usize = count_line(d, &st.units, &st.garrison, division);
    let total: usize = if line == 0 {
        1
    } else {
        line
    };
    let e: usize = choose_echelon(&profile.echelons, index, total);
    let base: i64 = find_band_base(d, fronts, profile);
    Search::Band {
        who,
        sector: find_sector(d, &st.units, &st.garrison, profile.shape, division, false),
        target: Target {
            sum: base as i128,
            count: 2,
            offset: profile.echelons[e].offset as i128,
        },
        bounded: e + 1 < profile.echelons.len() && !profile.loose,
        slot: Slot::Even { index, of: total },
    }
}

proof fn lemma_line_asks(
    d: &Deployment,
    b: &DeployBook,
    st: DeployView,
    f: Formation,
    order: Seq<usize>,
    i: nat,
    n: nat,
    q: Asked,
)
    requires
        i <= n,
        line_upto(d, b, st, f, order, i) == Err::<DeployView, Asked>(q),
    ensures
        line_upto(d, b, st, f, order, n) == Err::<DeployView, Asked>(q),
    decreases n - i,
{
    if i < n {
        lemma_line_asks(d, b, st, f, order, i + 1, n, q);
    }
}

fn place_line(d: &Deployment, fronts: &Vec<i64>, b: &DeployBook, st: DeployState, profile: &DeployProfile) -> (r: Result<
    DeployState,
    DeployQuestion,
>)
    requires
        measured(d, fronts@),
        profile_ok(profile),
    ensures
        found_state(r) == lined_up(d, b, st@, profile@),
        r matches Ok(s) ==> s.units@.len() == st.units@.len(),
{
    let order: Vec<usize> = find_line_order(d, &st, profile);
    let ghost start = st@;
    let ghost f = profile@;
    let mut s = st;
    let mut n: usize = 0;
    while n < order.len()
        invariant
            n <= order@.len(),
            measured(d, fronts@),
            profile_ok(profile),
            start == st@,
            f == profile@,
            order@ == line_order(d, start, f),
            are_units(start.units, order@),
            s.units@.len() == start.units.len(),
            line_upto(d, b, start, f, order@, n as nat) == Ok::<DeployView, Asked>(s@),
        decreases order@.len() - n,
    {
        let who: usize = order[n];
        let search = find_line_search(d, fronts, &s, profile, &order, n);
        match find_site(d, fronts, b, &s.used, search) {
            Err(search) => {
                proof {
                    lemma_line_asks(
                        d,
                        b,
                        start,
                        f,
                        order@,
                        (n + 1) as nat,
                        order@.len(),
                        Asked { search, line: Seq::empty() },
                    );
                }
                return Err(DeployQuestion { search, line: no_line() });
            },
            Ok(None) => {},
            Ok(Some(h)) => {
                let division: usize = s.units[who].division;
                let mut next = put_on(s, who, h);
                next.placed.push((division, h));
                s = next;
            },
        }
        n += 1;
    }
    Ok(s)
}

fn choose_observers(d: &Deployment, st: &DeployState) -> (out: Vec<usize>)
    ensures
        out@ == observers_of(d, st@),
        are_units(st.units@, out@),
{
    let line: usize = count_whole_line(d, &st.units, &st.garrison);
    let part: usize = line / OBSERVER_QUOTA_DIV;
    let want: usize = if part == 0 {
        1
    } else {
        part
    };
    let quota: usize = if want < line {
        want
    } else {
        line
    };
    let mut pool: Vec<usize> = rank_weakest(&st.units, &line_pool(d, &st.units, &st.garrison));
    let ghost full = pool@;
    if quota < pool.len() {
        pool.truncate(quota);
        assert forall|k: int| 0 <= k < pool@.len() implies (#[trigger] pool@[k]) < st.units@.len() by {
            assert(pool@[k] == full[k]);
        }
    }
    pool
}

proof fn lemma_observers_ask(
    d: &Deployment,
    b: &DeployBook,
    st: DeployView,
    shape: Shape,
    posts: Seq<usize>,
    i: nat,
    n: nat,
    q: Asked,
)
    requires
        i <= n,
        observers_upto(d, b, st, shape, posts, i) == Err::<DeployView, Asked>(q),
    ensures
        observers_upto(d, b, st, shape, posts, n) == Err::<DeployView, Asked>(q),
    decreases n - i,
{
    if i < n {
        lemma_observers_ask(d, b, st, shape, posts, i + 1, n, q);
    }
}

fn place_observers(d: &Deployment, fronts: &Vec<i64>, b: &DeployBook, st: DeployState, profile: &DeployProfile) -> (r: Result<
    DeployState,
    DeployQuestion,
>)
    requires
        measured(d, fronts@),
    ensures
        found_state(r) == observed(d, b, st@, profile@),
        r matches Ok(s) ==> s.units@.len() == st.units@.len(),
{
    if d.side != Side::Defender {
        return Ok(st);
    }
    let posts: Vec<usize> = choose_observers(d, &st);
    let shape = profile.shape;
    let ghost start = st@;
    let mut s = st;
    let mut n: usize = 0;
    while n < posts.len()
        invariant
            n <= posts@.len(),
            measured(d, fronts@),
            d.side == Side::Defender,
            start == st@,
            shape == profile.shape,
            posts@ == observers_of(d, start),
            are_units(start.units, posts@),
            s.units@.len() == start.units.len(),
            observers_upto(d, b, start, shape, posts@, n as nat) == Ok::<DeployView, Asked>(s@),
        decreases posts@.len() - n,
    {
        let who: usize = posts[n];
        let u = s.units[who];
        let search = Search::Crest {
            sector: find_sector(d, &s.units, &s.garrison, shape, u.division, true),
            near: u.position,
        };
        match find_site(d, fronts, b, &s.used, search) {
            Err(search) => {
                proof {
                    lemma_observers_ask(
                        d,
                        b,
                        start,
                        shape,
                        posts@,
                        (n + 1) as nat,
                        posts@.len(),
                        Asked { search, line: Seq::empty() },
                    );
                }
                return Err(DeployQuestion { search, line: no_line() });
            },
            Ok(None) => {},
            Ok(Some(h)) => {
                s = put_on(s, who, h);
            },
        }
        n += 1;
    }
    Ok(s)
}

fn all_hexes(placed: &Vec<(usize, HexCoord)>) -> (v: Vec<HexCoord>)
    ensures
        v@ == hexes_of(placed@),
{
    let mut v: Vec<HexCoord> = Vec::new();
    let mut i: usize = 0;
    while i < placed.len()
        invariant
            i <= placed@.len(),
            v@ =~= hexes_of(placed@).take(i as int),
        decreases placed@.len() - i,
    {
        v.push(placed[i].1);
        i += 1;
    }
    assert(v@ =~= hexes_of(placed@));
    v
}

fn division_hexes(placed: &Vec<(usize, HexCoord)>, division: usize) -> (v: Vec<HexCoord>)
    ensures
        v@ == hexes_of(those_where(placed@, of_division(division))),
{
    let ghost ok = of_division(division);
    let mut own: Vec<(usize, HexCoord)> = Vec::new();
    let mut i: usize = 0;
    assert(placed@.take(0) =~= Seq::<(usize, HexCoord)>::empty());
    while i < placed.len()
        invariant
            i <= placed@.len(),
            ok == of_division(division),
            own@ == those_where(placed@.take(i as int), ok),
        decreases placed@.len() - i,
    {
        assert(placed@.take(i + 1).drop_last() =~= placed@.take(i as int));
        if placed[i].0 == division {
            own.push(placed[i]);
        }
        i += 1;
    }
    assert(placed@.take(placed@.len() as int) =~= placed@);
    all_hexes(&own)
}

fn find_own_line(st: &DeployState, division: usize) -> (v: Vec<HexCoord>)
    ensures
        v@ == own_line(st@, division),
{
    if division == 0 {
        all_hexes(&st.placed)
    } else {
        division_hexes(&st.placed, division)
    }
}

fn find_reference(d: &Deployment, st: &DeployState, division: usize) -> (v: Vec<HexCoord>)
    ensures
        v@ == support_reference(d, st@, division),
{
    let own: Vec<HexCoord> = division_hexes(&st.placed, division);
    if division != 0 && own.len() > 0 {
        own
    } else if st.placed.len() > 0 {
        all_hexes(&st.placed)
    } else if d.side == Side::Defender {
        find_city(d)
    } else {
        Vec::new()
    }
}

fn sum_fronts(d: &Deployment, hexes: &Vec<HexCoord>) -> (sum: i128)
    ensures
        sum == front_sum(d, hexes@),
        0 <= sum <= MAX_FRONT * hexes@.len(),
{
    let mut sum: i128 = 0;
    let mut i: usize = 0;
    assert(hexes@.take(0) =~= Seq::<HexCoord>::empty());
    while i < hexes.len()
        invariant
            i <= hexes@.len(),
            sum == front_sum(d, hexes@.take(i as int)),
            0 <= sum <= MAX_FRONT * i,
        decreases hexes@.len() - i,
    {
        assert(hexes@.take(i + 1).drop_last() =~= hexes@.take(i as int));
        assert(MAX_FRONT * (i + 1) == MAX_FRONT * i + MAX_FRONT) by (nonlinear_arith);
        assert(MAX_FRONT * i <= 0x2_0000_0000 * 0xffff_ffff_ffff_ffff) by (nonlinear_arith)
            requires
                0 <= i <= 0xffff_ffff_ffff_ffff,
        ;
        let m: i64 = front_distance(d.enemy_zone, hexes[i]);
        sum = sum + m as i128;
        i += 1;
    }
    assert(hexes@.take(hexes@.len() as int) =~= hexes@);
    sum
}

fn find_standoff(u: &BattalionUnit) -> (n: i64)
    requires
        of_support(*u),
    ensures
        n == standoff(*u),
        1 <= n <= 4,
{
    if u.kind.anti_air {
        return 3;
    }
    if u.kind.anti_tank {
        return 2;
    }
    let half: i64 = u.attack_range / 2;
    if half < 1 {
        1
    } else if half > 4 {
        4
    } else {
        half
    }
}

fn find_support_target(d: &Deployment, fronts: &Vec<i64>, st: &DeployState, profile: &DeployProfile, u: &BattalionUnit) -> (t: Target)
    requires
        measured(d, fronts@),
        profile_ok(profile),
        of_support(*u),
    ensures
        t == support_target(d, st@, profile@, *u),
        target_ok(t),
{
    let line: Vec<HexCoord> = find_reference(d, st, u.division);
    let offset: i64 = find_standoff(u);
    if line.len() == 0 {
        let base: i64 = find_band_base(d, fronts, profile);
        Target { sum: base as i128, count: 2, offset: offset as i128 }
    } else {
        let sum: i128 = sum_fronts(d, &line);
        let count: usize = line.len();
        assert(MAX_FRONT * count <= 0x2_0000_0000 * 0x1_0000_0000_0000_0000) by (nonlinear_arith)
            requires
                0 <= count <= 0xffff_ffff_ffff_ffff,
        ;
        Target { sum, count: count as i128, offset: offset as i128 }
    }
}

fn find_support_slot(d: &Deployment, st: &DeployState, u: &BattalionUnit, index: usize) -> (s: Slot)
    ensures
        s == support_slot(d, st@, *u, index as nat),
{
    if d.side == Side::Defender && find_own_line(st, u.division).len() > 0 {
        Slot::Cluster { index }
    } else {
        let n: usize = count_support(d, &st.units, &st.garrison, u.division);
        Slot::Even {
            index,
            of: if n == 0 {
                1
            } else {
                n
            },
        }
    }
}

fn find_support_site(d: &Deployment, fronts: &Vec<i64>, b: &DeployBook, st: &DeployState, profile: &DeployProfile, who: usize, index: usize) -> (r: Result<
    Option<HexCoord>,
    Search,
>)
    requires
        measured(d, fronts@),
        profile_ok(profile),
        who < st.units@.len(),
        of_support(st.units@[who as int]),
    ensures
        r == support_site(d, b, st@, profile@, who, index as nat),
{
    let u = st.units[who];
    let sector = find_sector(d, &st.units, &st.garrison, profile.shape, u.division, false);
    let target = find_support_target(d, fronts, st, profile, &u);
    let slot = find_support_slot(d, st, &u, index);
    let bounded = !profile.loose;
    match find_site(d, fronts, b, &st.used, Search::Band { who, sector, target, bounded, slot }) {
        Ok(None) => find_site(d, fronts, b, &st.used, Search::Ground { who, sector, target, slot }),
        found => found,
    }
}

proof fn lemma_support_asks(
    d: &Deployment,
    b: &DeployBook,
    st: DeployView,
    f: Formation,
    guns: Seq<usize>,
    i: nat,
    n: nat,
    q: Asked,
)
    requires
        i <= n,
        support_upto(d, b, st, f, guns, i) == Err::<DeployView, Asked>(q),
    ensures
        support_upto(d, b, st, f, guns, n) == Err::<DeployView, Asked>(q),
    decreases n - i,
{
    if i < n {
        lemma_support_asks(d, b, st, f, guns, i + 1, n, q);
    }
}

/// The battalions differ in their hexes only.
pub open spec fn only_moved(before: Seq<BattalionUnit>, after: Seq<BattalionUnit>) -> bool {
    &&& before.len() == after.len()
    &&& forall|i: int|
        #![trigger before[i]]
        #![trigger after[i]]
        0 <= i < before.len() ==> after[i] == before[i].at_hex(after[i].position)
}

proof fn lemma_put_moves(before: Seq<BattalionUnit>, st: DeployView, i: int, h: HexCoord)
    requires
        only_moved(before, st.units),
        0 <= i < before.len(),
    ensures
        only_moved(before, put(st, i, h).units),
{
    let after = put(st, i, h).units;
    assert forall|j: int|
        #![trigger before[j]]
        #![trigger after[j]]
        0 <= j < before.len() implies after[j] == before[j].at_hex(after[j].position) by {
        if j != i {
            assert(after[j] == st.units[j]);
        }
    }
}

fn place_support(d: &Deployment, fronts: &Vec<i64>, b: &DeployBook, st: DeployState, profile: &DeployProfile) -> (r: Result<
    DeployState,
    DeployQuestion,
>)
    requires
        measured(d, fronts@),
        profile_ok(profile),
    ensures
        found_state(r) == supported(d, b, st@, profile@),
        r matches Ok(s) ==> s.units@.len() == st.units@.len(),
{
    let guns: Vec<usize> = support_pool(d, &st.units, &st.garrison);
    let ghost start = st@;
    let ghost f = profile@;
    let ghost ok = support_candidate(d, start.units, start.garrison);
    proof {
        law_those_where(indices(start.units.len()), ok);
    }
    let mut s = st;
    let mut n: usize = 0;
    while n < guns.len()
        invariant
            n <= guns@.len(),
            measured(d, fronts@),
            profile_ok(profile),
            start == st@,
            f == profile@,
            ok == support_candidate(d, start.units, start.garrison),
            guns@ == those_where(indices(start.units.len()), ok),
            forall|x: usize| #[trigger] guns@.contains(x) ==> ok(x),
            are_units(start.units, guns@),
            only_moved(start.units, s.units@),
            support_upto(d, b, start, f, guns@, n as nat) == Ok::<DeployView, Asked>(s@),
        decreases guns@.len() - n,
    {
        let who: usize = guns[n];
        proof {
            assert(guns@.contains(who));
            assert(s.units@[who as int] == start.units[who as int].at_hex(
                s.units@[who as int].position,
            ));
            assert(of_support(s.units@[who as int]));
        }
        let division: usize = s.units[who].division;
        let index: usize = count_same(&s.units, &guns, n, division);
        match find_support_site(d, fronts, b, &s, profile, who, index) {
            Err(search) => {
                let line: Vec<HexCoord> = find_own_line(&s, division);
                proof {
                    lemma_support_asks(
                        d,
                        b,
                        start,
                        f,
                        guns@,
                        (n + 1) as nat,
                        guns@.len(),
                        Asked { search, line: line@ },
                    );
                }
                return Err(DeployQuestion { search, line });
            },
            Ok(None) => {},
            Ok(Some(h)) => {
                proof {
                    lemma_put_moves(start.units, s@, who as int, h);
                }
                s = put_on(s, who, h);
            },
        }
        n += 1;
    }
    Ok(s)
}

fn commanded_units(d: &Deployment, units: &Vec<BattalionUnit>, division: usize) -> (v: Vec<BattalionUnit>)
    ensures
        v@ == those_where(units@, commanded(d, division)),
{
    let ghost ok = commanded(d, division);
    let away = offboard();
    let mut v: Vec<BattalionUnit> = Vec::new();
    let mut i: usize = 0;
    assert(units@.take(0) =~= Seq::<BattalionUnit>::empty());
    while i < units.len()
        invariant
            i <= units@.len(),
            away == offboard_hex(),
            ok == commanded(d, division),
            v@ == those_where(units@.take(i as int), ok),
        decreases units@.len() - i,
    {
        assert(units@.take(i + 1).drop_last() =~= units@.take(i as int));
        let u = units[i];
        if u.side == d.side && !u.kind.hq && u.division == division && u.position != away {
            v.push(u);
        }
        i += 1;
    }
    assert(units@.take(units@.len() as int) =~= units@);
    v
}

fn round_off(sum: i128, count: i128) -> (n: i128)
    requires
        0 < count <= 0x1_0000_0000_0000_0000,
        -0x8000_0000 * count <= sum <= 0x8000_0000 * count,
    ensures
        n == rounded(sum as int, count as int),
{
    proof {
        assert(0x8000_0000 * count <= 0x8000_0000 * 0x1_0000_0000_0000_0000) by (nonlinear_arith)
            requires
                count <= 0x1_0000_0000_0000_0000,
        ;
    }
    if sum >= 0 {
        (2 * sum + count) / (2 * count)
    } else {
        let up: i128 = 2 * (0 - sum) + count;
        let n: i128 = up / (2 * count);
        proof {
            assert(0 <= n <= up) by (nonlinear_arith)
                requires
                    n == (up as int) / (2 * count),
                    up >= 0,
                    count > 0,
            ;
        }
        0 - n
    }
}

fn find_anchor(d: &Deployment, units: &Vec<BattalionUnit>, division: usize) -> (h: Option<HexCoord>)
    ensures
        h == command_anchor(d, units@, division),
{
    let members: Vec<BattalionUnit> = commanded_units(d, units, division);
    if members.len() == 0 {
        return None;
    }
    let mut q: i128 = 0;
    let mut r: i128 = 0;
    let mut i: usize = 0;
    assert(members@.take(0) =~= Seq::<BattalionUnit>::empty());
    while i < members.len()
        invariant
            i <= members@.len(),
            (q as int, r as int) == place_sum(members@.take(i as int)),
            -0x8000_0000 * i <= q <= 0x7fff_ffff * i,
            -0x8000_0000 * i <= r <= 0x7fff_ffff * i,
        decreases members@.len() - i,
    {
        assert(members@.take(i + 1).drop_last() =~= members@.take(i as int));
        q = q + members[i].position.q as i128;
        r = r + members[i].position.r as i128;
        i += 1;
    }
    assert(members@.take(members@.len() as int) =~= members@);
    let n: i128 = members.len() as i128;
    let cq: i128 = round_off(q, n);
    let cr: i128 = round_off(r, n);
    proof {
        lemma_rounded_fits(q as int, n as int);
        lemma_rounded_fits(r as int, n as int);
    }
    Some(HexCoord { q: cq as i32, r: cr as i32 })
}

/// An average of coordinates, rounded, is a coordinate.
proof fn lemma_rounded_fits(sum: int, count: int)
    requires
        count > 0,
        -0x8000_0000 * count <= sum <= 0x7fff_ffff * count,
    ensures
        -0x8000_0000 <= rounded(sum, count) <= 0x7fff_ffff,
{
    if sum >= 0 {
        assert((2 * sum + count) / (2 * count) <= 0x7fff_ffff) by (nonlinear_arith)
            requires
                count > 0,
                0 <= sum <= 0x7fff_ffff * count,
        ;
        assert((2 * sum + count) / (2 * count) >= 0) by (nonlinear_arith)
            requires
                count > 0,
                sum >= 0,
        ;
    } else {
        assert((2 * (-sum) + count) / (2 * count) <= 0x8000_0000) by (nonlinear_arith)
            requires
                count > 0,
                sum < 0,
                -0x8000_0000 * count <= sum,
        ;
        assert((2 * (-sum) + count) / (2 * count) >= 0) by (nonlinear_arith)
            requires
                count > 0,
                sum < 0,
        ;
    }
}

proof fn lemma_hqs_ask(d: &Deployment, b: &DeployBook, st: DeployView, hqs: Seq<usize>, i: nat, n: nat, q: Asked)
    requires
        i <= n,
        hqs_upto(d, b, st, hqs, i) == Err::<DeployView, Asked>(q),
    ensures
        hqs_upto(d, b, st, hqs, n) == Err::<DeployView, Asked>(q),
    decreases n - i,
{
    if i < n {
        lemma_hqs_ask(d, b, st, hqs, i + 1, n, q);
    }
}

fn place_hqs(d: &Deployment, fronts: &Vec<i64>, b: &DeployBook, st: DeployState) -> (r: Result<DeployState, DeployQuestion>)
    requires
        measured(d, fronts@),
    ensures
        found_state(r) == headed(d, b, st@),
        r matches Ok(s) ==> s.units@.len() == st.units@.len(),
{
    let hqs: Vec<usize> = hq_pool(d, &st.units);
    let ghost start = st@;
    let mut s = st;
    let mut n: usize = 0;
    while n < hqs.len()
        invariant
            n <= hqs@.len(),
            measured(d, fronts@),
            start == st@,
            hqs@ == hqs_of(d, start.units),
            are_units(start.units, hqs@),
            s.units@.len() == start.units.len(),
            hqs_upto(d, b, start, hqs@, n as nat) == Ok::<DeployView, Asked>(s@),
        decreases hqs@.len() - n,
    {
        let who: usize = hqs[n];
        let anchor = find_anchor(d, &s.units, s.units[who].division);
        match find_site(d, fronts, b, &s.used, Search::Rear { anchor }) {
            Err(search) => {
                proof {
                    lemma_hqs_ask(
                        d,
                        b,
                        start,
                        hqs@,
                        (n + 1) as nat,
                        hqs@.len(),
                        Asked { search, line: Seq::empty() },
                    );
                }
                return Err(DeployQuestion { search, line: no_line() });
            },
            Ok(None) => {},
            Ok(Some(h)) => {
                s = put_on(s, who, h);
            },
        }
        n += 1;
    }
    Ok(s)
}

proof fn lemma_profile_ok(p: &DeployProfile, defending: bool, tactic: CombatTactic)
    requires
        p@ == formation_of(defending, tactic),
    ensures
        profile_ok(p),
{
    law_echelons_make_up_the_division(defending, tactic);
    let e = formation_of(defending, tactic).echelons;
    assert(e == p.echelons@);
    assert forall|k: int| 0 <= k < e.len() implies 0 <= (#[trigger] e[k]).offset <= 100 by {
        assert(k == 0 || k == 1 || k == 2);
    }
}

/// How far the hexes of a zone are from the enemy's zone.
fn find_fronts(zone: &Vec<HexCoord>, enemy_zone: &Vec<HexCoord>) -> (v: Vec<i64>)
    ensures
        v@.len() == zone@.len(),
        forall|i: int|
            0 <= i < v@.len() ==> (#[trigger] v@[i]) == match nearest_hex(enemy_zone@, zone@[i]) {
                Some(m) => m,
                None => 0,
            },
{
    let mut v: Vec<i64> = Vec::new();
    let mut i: usize = 0;
    while i < zone.len()
        invariant
            i <= zone@.len(),
            v@.len() == i,
            forall|j: int|
                0 <= j < i ==> (#[trigger] v@[j]) == match nearest_hex(enemy_zone@, zone@[j]) {
                    Some(m) => m,
                    None => 0,
                },
        decreases zone@.len() - i,
    {
        v.push(front_distance(enemy_zone, zone[i]));
        i += 1;
    }
    v
}

fn copy_units(units: &Vec<BattalionUnit>) -> (c: Vec<BattalionUnit>)
    ensures
        c@ == units@,
{
    let mut c: Vec<BattalionUnit> = Vec::new();
    let mut i: usize = 0;
    while i < units.len()
        invariant
            i <= units@.len(),
            c@ =~= units@.take(i as int),
        decreases units@.len() - i,
    {
        c.push(units[i]);
        i += 1;
    }
    assert(units@.take(units@.len() as int) =~= units@);
    c
}

fn copy_hexes(hexes: &Vec<HexCoord>) -> (c: Vec<HexCoord>)
    ensures
        c@ == hexes@,
{
    let mut c: Vec<HexCoord> = Vec::new();
    let mut i: usize = 0;
    while i < hexes.len()
        invariant
            i <= hexes@.len(),
            c@ =~= hexes@.take(i as int),
        decreases hexes@.len() - i,
    {
        c.push(hexes[i]);
        i += 1;
    }
    assert(hexes@.take(hexes@.len() as int) =~= hexes@);
    c
}

/// Runs all passes of a deployment.
fn deploy_all(d: &Deployment, fronts: &Vec<i64>, b: &DeployBook, units: &Vec<BattalionUnit>, pre_used: &Vec<HexCoord>) -> (r: Result<
    DeployState,
    DeployQuestion,
>)
    requires
        measured(d, fronts@),
    ensures
        found_state(r) == deployed(d, b, units@, pre_used@),
{
    let start = DeployState {
        units: copy_units(units),
        used: copy_hexes(pre_used),
        garrison: Vec::new(),
        placed: Vec::new(),
    };
    if d.zone.len() == 0 || d.enemy_zone.len() == 0 {
        return Ok(start);
    }
    let profile = profile_for(d.side == Side::Defender, d.tactic);
    proof {
        lemma_profile_ok(&profile, d.side == Side::Defender, d.tactic);
    }
    let s1 = match place_garrison(d, fronts, b, start) {
        Err(q) => {
            return Err(q);
        },
        Ok(s) => s,
    };
    let s2 = match place_line(d, fronts, b, s1, &profile) {
        Err(q) => {
            return Err(q);
        },
        Ok(s) => s,
    };
    let s3 = match place_observers(d, fronts, b, s2, &profile) {
        Err(q) => {
            return Err(q);
        },
        Ok(s) => s,
    };
    let s4 = match place_support(d, fronts, b, s3, &profile) {
        Err(q) => {
            return Err(q);
        },
        Ok(s) => s,
    };
    place_hqs(d, fronts, b, s4)
}

/// Deploys a whole side, or one division of it, in its zone.
pub fn ai_deploy(
    grid: &HexGrid,
    units: &mut Vec<BattalionUnit>,
    e_zone: &Vec<HexCoord>,
    p_zone: &Vec<HexCoord>,
    sightlines: &Vec<Vec<HexCoord>>,
    enemy: Side,
    tactic: CombatTactic,
    pre_used: &Vec<HexCoord>,
    only_division: Option<usize>,
    book: &DeployBook,
) -> (r: Result<(), DeployQuestion>)
    requires
        sightlines@.len() == e_zone@.len(),
    ensures
        match deployed(
            &(Deployment {
                grid,
                zone: e_zone,
                enemy_zone: p_zone,
                sightlines,
                side: enemy,
                tactic,
                only_division,
                sector_divisions: None,
                only_undeployed: false,
            }),
            book,
            old(units)@,
            pre_used@,
        ) {
            Ok(s) => r is Ok && final(units)@ == s.units,
            Err(q) => r matches Err(asked) && asked@ == q && final(units)@ == old(units)@,
        },
{
    ai_deploy_impl(
        grid,
        units,
        e_zone,
        p_zone,
        sightlines,
        enemy,
        tactic,
        pre_used,
        only_division,
        None,
        false,
        book,
    )
}

/// Deploys the battalions of side `enemy` in its zone `e_zone`, off the other
/// side's zone `p_zone`. Hexes in `pre_used` are taken already.
/// `only_division` places one division only, `sector_divisions` names those
/// that share the front, and `only_undeployed` leaves alone all battalions that
/// were placed by hand. Asks for a table that the book lacks and leaves the
/// battalions as they were.
pub fn ai_deploy_impl(
    grid: &HexGrid,
    units: &mut Vec<BattalionUnit>,
    e_zone: &Vec<HexCoord>,
    p_zone: &Vec<HexCoord>,
    sightlines: &Vec<Vec<HexCoord>>,
    enemy: Side,
    tactic: CombatTactic,
    pre_used: &Vec<HexCoord>,
    only_division: Option<usize>,
    sector_divisions: Option<&Vec<usize>>,
    only_undeployed: bool,
    book: &DeployBook,
) -> (r: Result<(), DeployQuestion>)
    requires
        sightlines@.len() == e_zone@.len(),
    ensures
        match deployed(
            &(Deployment {
                grid,
                zone: e_zone,
                enemy_zone: p_zone,
                sightlines,
                side: enemy,
                tactic,
                only_division,
                sector_divisions,
                only_undeployed,
            }),
            book,
            old(units)@,
            pre_used@,
        ) {
            Ok(s) => r is Ok && final(units)@ == s.units,
            Err(q) => r matches Err(asked) && asked@ == q && final(units)@ == old(units)@,
        },
{
    let fronts: Vec<i64> = find_fronts(e_zone, p_zone);
    let d = Deployment {
        grid,
        zone: e_zone,
        enemy_zone: p_zone,
        sightlines,
        side: enemy,
        tactic,
        only_division,
        sector_divisions,
        only_undeployed,
    };
    let ghost before = units@;
    assert(measured(&d, fronts@));
    match deploy_all(&d, &fronts, book, units, pre_used) {
        Ok(s) => {
            assert(deployed(&d, book, before, pre_used@) == Ok::<DeployView, Asked>(s@));
            *units = s.units;
            Ok(())
        },
        Err(q) => {
            assert(deployed(&d, book, before, pre_used@) == Err::<DeployView, Asked>(q@));
            Err(q)
        },
    }
}

/// The divisions tile the front: a formation that is not split gives the `k`-th
/// division, if it has battalions on the front, the stretch from where those
/// before it end to where the next begins, and all of them together the whole.
pub proof fn law_sectors_tile_the_front(
    d: &Deployment,
    units: Seq<BattalionUnit>,
    garrison: Seq<usize>,
    shape: Shape,
    k: int,
)
    requires
        0 <= k < divisions_of(d, units).len(),
        !(shape is TwoWings),
    ensures
        ({
            let divisions = divisions_of(d, units);
            let upto = |n: int| strength_upto(d, units, garrison, divisions, n as nat);
            &&& upto(0) == 0
            &&& count_where(units, counted(d, garrison, divisions[k])) > 0 ==> division_sector(
                d,
                units,
                garrison,
                shape,
                divisions[k],
            ) == Some(
                Sector {
                    wing: Wing::Covered,
                    from: upto(k) as usize,
                    to: upto(k + 1) as usize,
                    of: upto(divisions.len() as int) as usize,
                },
            )
            &&& count_where(units, counted(d, garrison, divisions[k])) == 0 ==> upto(k + 1) == upto(k)
        }),
{
    let divisions = divisions_of(d, units);
    lemma_divisions_differ(d, units);
    law_first_where(divisions, is_division(divisions[k]));
    if let Some(x) = first_where(divisions, is_division(divisions[k])) {
        assert(divisions[x] == divisions[k]);
        assert(x == k);
    } else {
        assert(is_division(divisions[k])(divisions[k]));
    }
}

} // verus!
