//! Whole deployments on concrete maps.
//!
//! The maps come with a small model of the front: it measures arcs along the
//! front and weighs the ground, and so fills in the tables that a deployment
//! asks for until all battalions are placed.
use std::collections::HashSet;
use tactical::deploy::{
    ai_deploy as deploy_side, ai_deploy_impl as deploy, DeployBook, DeployQuestion, Search, Sector,
    SiteRow, SiteTable, Slot, Target, Wing,
};
use tactical::formation::{ground_terms, profile_for, Shape};
use tactical::grid::{Cell, HexGrid};
use tactical::hex::HexCoord;
use tactical::tactic::CombatTactic;
use tactical::unit::{offboard, BattalionUnit, Side, UnitKind, UnitState};

// The ground.

#[derive(Debug, Clone, Copy, PartialEq, Eq)]
enum Terrain {
    Plains,
    Forest,
    River,
    Urban,
}

#[derive(Debug, Clone, Copy)]
struct Land {
    terrain: Terrain,
    elevation: i64,
}

struct Ground {
    width: i32,
    height: i32,
    lands: Vec<Land>,
}

fn cover_percent(t: Terrain) -> f32 {
    match t {
        Terrain::Plains => 0.0,
        Terrain::Forest => 0.15,
        Terrain::Urban => 0.5,
        Terrain::River => -0.5,
    }
}

impl Ground {
    fn new(width: i32, height: i32, terrain: Terrain) -> Ground {
        let land = Land { terrain, elevation: 0 };
        Ground { width, height, lands: vec![land; (width * height) as usize] }
    }

    fn at(&self, h: HexCoord) -> Option<usize> {
        let inside = 0 <= h.q && h.q < self.width && 0 <= h.r && h.r < self.height;
        inside.then_some((h.r * self.width + h.q) as usize)
    }

    fn cell(&self, h: HexCoord) -> Option<Land> {
        self.at(h).map(|i| self.lands[i])
    }

    fn cell_mut(&mut self, h: HexCoord) -> Option<&mut Land> {
        self.at(h).map(|i| &mut self.lands[i])
    }

    fn set_terrain(&mut self, h: HexCoord, t: Terrain) {
        let land = self.cell_mut(h).unwrap();
        land.terrain = t;
        if t == Terrain::River {
            land.elevation = -1;
        }
    }

    fn map(&self) -> HexGrid {
        let fill = Cell {
            passable: true,
            out_of_bounds: false,
            river: false,
            urban: false,
            elevation: 0,
            cover: 0,
        };
        let mut g = HexGrid::new(self.width as usize, self.height as usize, fill);
        for q in 0..self.width {
            for r in 0..self.height {
                let h = HexCoord::new(q, r);
                let land = self.cell(h).unwrap();
                g = g.with_cell(
                    h,
                    Cell {
                        passable: true,
                        out_of_bounds: false,
                        river: land.terrain == Terrain::River,
                        urban: land.terrain == Terrain::Urban,
                        elevation: land.elevation,
                        cover: key(cover_percent(land.terrain)),
                    },
                );
            }
        }
        g
    }
}

/// An integer that orders as the quantity does.
fn key(x: f32) -> i64 {
    if x == 0.0 {
        0
    } else if x > 0.0 {
        x.to_bits() as i64
    } else {
        -((-x).to_bits() as i64)
    }
}

// The battalions.

#[derive(Debug, Clone, Copy, PartialEq, Eq)]
enum UnitType {
    Infantry,
    MediumArmor,
    ArtilleryBrigade,
    AntiTankBrigade,
    AntiAirBrigade,
    Headquarters,
}

#[derive(Debug, Clone)]
struct Battalion {
    id: usize,
    unit_type: UnitType,
    side: Side,
    position: HexCoord,
    division: String,
    max_org: f32,
    org: f32,
    attack_range: i64,
    undeployed: bool,
}

impl Battalion {
    fn is_hq(&self) -> bool {
        self.unit_type == UnitType::Headquarters
    }

    fn battalion_unit(&self, names: &[String]) -> BattalionUnit {
        BattalionUnit {
            id: self.id,
            division: division_number(names, &self.division),
            side: self.side,
            position: self.position,
            state: UnitState::Active,
            fit: self.org > 0.0,
            present: true,
            kind: UnitKind {
                hq: self.is_hq(),
                armor: self.unit_type == UnitType::MediumArmor,
                recon: false,
                support_company: false,
                motorized: false,
                indirect_artillery: self.unit_type == UnitType::ArtilleryBrigade,
                direct_gun: self.unit_type == UnitType::AntiTankBrigade,
                rocket: false,
                anti_tank: self.unit_type == UnitType::AntiTankBrigade,
                anti_air: self.unit_type == UnitType::AntiAirBrigade,
                gun: matches!(
                    self.unit_type,
                    UnitType::AntiTankBrigade | UnitType::AntiAirBrigade
                ),
                towed: false,
            },
            attack_range: self.attack_range,
            min_attack_range: 1,
            org: self.org.to_bits(),
            org_ratio: (self.org / self.max_org).to_bits(),
            strength: 100.0f32.to_bits(),
            org_cents: (self.org * 100.0) as i64,
            strength_cents: 10000,
            acted: false,
            shocked: false,
            is_holding: false,
            is_emplaced: false,
            manual_override: false,
            undeployed: self.undeployed,
            can_assault: true,
            can_attack_order: true,
            fire_support: false,
            fire_cooldown: 0,
            oob_turns: 0,
            move_to: None,
        }
    }
}

fn unit(id: usize, ty: UnitType, side: Side, range: i64) -> Battalion {
    Battalion {
        id,
        unit_type: ty,
        side,
        position: HexCoord::new(0, 0),
        division: String::new(),
        max_org: 100.0,
        org: 100.0,
        attack_range: range,
        undeployed: false,
    }
}

/// The names of all divisions; the first stands for none.
fn division_names(units: &[Battalion]) -> Vec<String> {
    let mut names: Vec<String> = vec![String::new()];
    for u in units {
        if !names.contains(&u.division) {
            names.push(u.division.clone());
        }
    }
    names
}

fn division_number(names: &[String], name: &str) -> usize {
    names.iter().position(|n| n == name).unwrap()
}

/// Gives each division of the side a headquarters that waits off the board.
fn synthesize_hqs(units: &mut Vec<Battalion>, first_id: usize, side: Side) {
    let names = division_names(units);
    for (i, name) in names.iter().enumerate().skip(1) {
        let mut hq = unit(first_id + i, UnitType::Headquarters, side, 1);
        hq.division = name.clone();
        hq.position = offboard();
        units.push(hq);
    }
}

fn in_command(units: &[Battalion], u: &Battalion) -> bool {
    units.iter().any(|h| {
        h.is_hq() && h.division == u.division && h.position.distance(u.position) <= 3
    })
}

// The front.

const TERRAIN_W: f32 = 120.0;
const TERRAIN_W_ATK: f32 = 50.0;
const RIVER_SHIELD_W: f32 = 80.0;
const FRONT_W: f32 = 8.0;
const DEF_URBAN_BONUS: f32 = 60.0;
const CROWD_W: f32 = 12.0;
const BAND_HALF: f32 = 1.5;
const DEEP_W: f32 = 12.0;
const MIN_BAND_SPAN: f32 = 8.0;
const SECTOR_SLACK: f32 = 2.0;
const BAND_RUN_GAP: f32 = 4.0;
const SUPPORT_CLUSTER_STEP: f32 = 2.5;
const REVERSE_SLOPE_W: f32 = 45.0;

fn mean(hexes: &[HexCoord]) -> (f32, f32) {
    let n = hexes.len().max(1) as f32;
    let q: i64 = hexes.iter().map(|h| h.q as i64).sum();
    let r: i64 = hexes.iter().map(|h| h.r as i64).sum();
    (q as f32 / n, r as f32 / n)
}

/// The hexes between a hex and a point, one for each hex of the way.
fn samples(h: HexCoord, to: (f32, f32)) -> Vec<HexCoord> {
    let (dq, dr) = (to.0 - h.q as f32, to.1 - h.r as f32);
    let steps = dq.abs().max(dr.abs()).ceil() as i32;
    (1..steps)
        .map(|i| {
            let t = i as f32 / steps as f32;
            HexCoord::new(
                (h.q as f32 + dq * t).round() as i32,
                (h.r as f32 + dr * t).round() as i32,
            )
        })
        .collect()
}

/// A hex's own step towards a point.
fn first_step(h: HexCoord, to: (f32, f32)) -> Option<HexCoord> {
    let (dq, dr) = (to.0 - h.q as f32, to.1 - h.r as f32);
    let steps = dq.abs().max(dr.abs()).ceil();
    (steps >= 2.0).then(|| {
        HexCoord::new(
            (h.q as f32 + dq / steps).round() as i32,
            (h.r as f32 + dr / steps).round() as i32,
        )
    })
}

struct Front<'a> {
    ground: &'a Ground,
    map: HexGrid,
    zone: &'a [HexCoord],
    fronts: Vec<f32>,
    enemy_middle: (f32, f32),
    defending: bool,
    tactic: CombatTactic,
    loose: bool,
    shape: Shape,
    axis: (f32, f32),
    middle: (f32, f32),
    ends: (f32, f32),
    runs: Vec<(f32, f32)>,
}

impl<'a> Front<'a> {
    fn new(
        ground: &'a Ground,
        zone: &'a [HexCoord],
        enemy_zone: &[HexCoord],
        side: Side,
        tactic: CombatTactic,
    ) -> Front<'a> {
        let defending = side == Side::Defender;
        let profile = profile_for(defending, tactic);
        let fronts: Vec<f32> = zone
            .iter()
            .map(|h| enemy_zone.iter().map(|p| h.distance(*p)).min().unwrap() as f32)
            .collect();
        let edge = fronts.iter().copied().fold(f32::INFINITY, f32::min);
        let base = edge + ((profile.band - 6).max(0)) as f32 / 2.0;
        let band: Vec<HexCoord> = (0..zone.len())
            .filter(|i| (fronts[*i] - base).abs() <= BAND_HALF)
            .map(|i| zone[i])
            .collect();
        let middle = mean(if band.is_empty() { zone } else { &band });
        let along = |axis: (f32, f32), h: &HexCoord| {
            (h.q as f32 - middle.0) * axis.0 + (h.r as f32 - middle.1) * axis.1
        };
        let span = |axis: (f32, f32), hexes: &[HexCoord]| {
            hexes.iter().fold((f32::INFINITY, f32::NEG_INFINITY), |(lo, hi), h| {
                let a = along(axis, h);
                (lo.min(a), hi.max(a))
            })
        };
        let (mut sxx, mut syy, mut sxy) = (0f32, 0f32, 0f32);
        for h in &band {
            let (dx, dy) = (h.q as f32 - middle.0, h.r as f32 - middle.1);
            sxx += dx * dx;
            syy += dy * dy;
            sxy += dx * dy;
        }
        let trace = sxx + syy;
        let disc = ((trace * trace / 4.0 - (sxx * syy - sxy * sxy)).max(0.0)).sqrt();
        let (ex, ey) = if sxy.abs() < 1e-9 {
            if syy >= sxx {
                (0.0, 1.0)
            } else {
                (1.0, 0.0)
            }
        } else {
            ((trace / 2.0 + disc - syy) / sxy, 1.0)
        };
        let len = (ex * ex + ey * ey).sqrt().max(1e-6);
        let main = (ex / len, ey / len);
        let flat = (1.0, 0.0);
        let (axis, ends) = if band.is_empty() {
            (flat, span(flat, zone))
        } else {
            let (lo, hi) = span(main, &band);
            if hi - lo < MIN_BAND_SPAN {
                (flat, span(flat, zone))
            } else {
                (main, (lo, hi))
            }
        };
        let (lo, hi) = span(axis, &band);
        let source: &[HexCoord] =
            if band.is_empty() || hi - lo < MIN_BAND_SPAN { zone } else { &band };
        let mut arcs: Vec<f32> = source.iter().map(|h| along(axis, h)).collect();
        arcs.sort_by(f32::total_cmp);
        let mut runs: Vec<(f32, f32)> = Vec::new();
        for a in arcs {
            match runs.last_mut() {
                Some((_, hi)) if a - *hi <= BAND_RUN_GAP => *hi = a,
                _ => runs.push((a, a)),
            }
        }
        Front {
            ground,
            map: ground.map(),
            zone,
            fronts,
            enemy_middle: mean(enemy_zone),
            defending,
            tactic,
            loose: profile.loose,
            shape: profile.shape,
            axis,
            middle,
            ends,
            runs,
        }
    }

    fn arc(&self, h: HexCoord) -> f32 {
        (h.q as f32 - self.middle.0) * self.axis.0 + (h.r as f32 - self.middle.1) * self.axis.1
    }

    /// The arc at a part of the covered front.
    fn covered_arc(&self, frac: f32) -> f32 {
        let total: f32 = self.runs.iter().map(|(lo, hi)| hi - lo).sum();
        if total <= 0.0 {
            return self.ends.0;
        }
        let mut f = frac.clamp(0.0, 1.0) * total;
        for &(lo, hi) in &self.runs {
            if f <= hi - lo {
                return lo + f;
            }
            f -= hi - lo;
        }
        self.ends.1
    }

    fn stretch(&self, s: Sector) -> (f32, f32) {
        let part = match (s.wing, self.shape) {
            (Wing::Whole, _) => return self.ends,
            (Wing::Left, Shape::TwoWings(w)) => (0.0, w as f32 / 100.0),
            (Wing::Right, Shape::TwoWings(w)) => (1.0 - w as f32 / 100.0, 1.0),
            (_, Shape::CenterFocus(p)) if self.runs.len() < 2 => {
                (0.5 - p as f32 / 200.0, 0.5 + p as f32 / 200.0)
            }
            _ => (0.0, 1.0),
        };
        let at = |n: usize| part.0 + n as f32 / s.of.max(1) as f32 * (part.1 - part.0);
        (self.covered_arc(at(s.from)), self.covered_arc(at(s.to)))
    }

    fn slot(&self, slot: Slot, ends: (f32, f32), line: &[HexCoord]) -> f32 {
        match slot {
            Slot::Even { index, of } => {
                ends.0 + (index as f32 + 0.5) / of as f32 * (ends.1 - ends.0)
            }
            Slot::Cluster { index } => {
                let centre = line.iter().map(|h| self.arc(*h)).sum::<f32>() / line.len() as f32;
                let step = ((index + 1) / 2) as f32 * SUPPORT_CLUSTER_STEP;
                let dir = if index % 2 == 0 { 1.0 } else { -1.0 };
                (centre + dir * step).clamp(ends.0, ends.1)
            }
        }
    }

    /// The worth of a hex as ground, at its distance from the target.
    fn ground_score(&self, i: usize, target: f32) -> f32 {
        let h = self.zone[i];
        let terms = ground_terms(
            &self.map,
            self.defending,
            self.tactic,
            h,
            &samples(h, self.enemy_middle),
            first_step(h, self.enemy_middle),
        );
        let weight = if self.defending { TERRAIN_W } else { TERRAIN_W_ATK };
        let cover = self.ground.cell(h).map(|c| cover_percent(c.terrain)).unwrap_or(0.0);
        let mut score = -(self.fronts[i] - target).abs() * FRONT_W;
        score += cover * if terms.lurk { weight * 3.0 } else { weight };
        if terms.city {
            score += DEF_URBAN_BONUS;
        }
        if terms.shield {
            score += if terms.double_shield { RIVER_SHIELD_W * 2.0 } else { RIVER_SHIELD_W };
        }
        if terms.bank {
            score += RIVER_SHIELD_W * 0.75;
        }
        if terms.defilade {
            score += REVERSE_SLOPE_W;
        }
        score
    }

    fn table(&self, q: &DeployQuestion) -> SiteTable {
        let aim = |t: Target| t.sum as f32 / t.count as f32 + t.offset as f32;
        let rows = (0..self.zone.len())
            .map(|i| {
                let h = self.zone[i];
                let within = |s: Sector| {
                    let (lo, hi) = self.stretch(s);
                    let a = self.arc(h);
                    a >= lo - SECTOR_SLACK && a <= hi + SECTOR_SLACK
                };
                let off = |s: Sector, slot: Slot| {
                    key((self.arc(h) - self.slot(slot, self.stretch(s), &q.line)).abs())
                };
                match q.search {
                    Search::Garrison { .. } => {
                        let city: Vec<HexCoord> =
                            self.zone.iter().copied().filter(|z| self.map.is_urban(*z)).collect();
                        let (cq, cr) = mean(&city);
                        let (dq, dr) = (h.q as f32 - cq, h.r as f32 - cr);
                        let d = (dq * dq + dr * dr).sqrt();
                        SiteRow { inside: true, near: 0, open: key(d), crowded: key(d + CROWD_W) }
                    }
                    Search::Band { sector, target, slot, .. } => {
                        let t = aim(target);
                        let deep = if self.loose {
                            0.0
                        } else {
                            (self.fronts[i] - (t + BAND_HALF)).max(0.0) * DEEP_W
                        };
                        let score = self.ground_score(i, t) - deep;
                        let crowd = CROWD_W * if self.loose { 0.5 } else { 1.0 };
                        SiteRow {
                            inside: within(sector),
                            near: off(sector, slot),
                            open: key(score),
                            crowded: key(score - crowd),
                        }
                    }
                    Search::Ground { sector, target, slot, .. } => {
                        let score = key(-(self.fronts[i] - aim(target)).abs() * FRONT_W);
                        SiteRow {
                            inside: within(sector),
                            near: off(sector, slot),
                            open: score,
                            crowded: score,
                        }
                    }
                    Search::Crest { sector, .. } => {
                        SiteRow { inside: within(sector), near: 0, open: 0, crowded: 0 }
                    }
                    Search::Rear { .. } => unreachable!(),
                }
            })
            .collect();
        SiteTable { search: q.search, rows }
    }
}

/// Fills in the tables that are asked for until all battalions are placed.
fn settle(
    g: &Ground,
    units: &mut [Battalion],
    e_zone: &[HexCoord],
    p_zone: &[HexCoord],
    side: Side,
    tactic: CombatTactic,
    place: impl Fn(&HexGrid, &mut Vec<BattalionUnit>, &Vec<Vec<HexCoord>>, &DeployBook) -> Result<(), DeployQuestion>,
) {
    let names = division_names(units);
    let front = Front::new(g, e_zone, p_zone, side, tactic);
    let sightlines: Vec<Vec<HexCoord>> =
        e_zone.iter().map(|h| samples(*h, front.enemy_middle)).collect();
    let before: Vec<BattalionUnit> = units.iter().map(|u| u.battalion_unit(&names)).collect();
    let mut book = DeployBook { tables: Vec::new() };
    loop {
        let mut field = before.clone();
        match place(&front.map, &mut field, &sightlines, &book) {
            Ok(()) => {
                for (u, f) in units.iter_mut().zip(&field) {
                    u.position = f.position;
                }
                return;
            }
            Err(q) => {
                assert_eq!(field, before);
                assert!(!book.tables.iter().any(|t| t.search == q.search), "asked twice: {q:?}");
                book.tables.push(front.table(&q));
            }
        }
    }
}

fn hexes(set: &HashSet<(i32, i32)>) -> Vec<HexCoord> {
    set.iter().map(|(q, r)| HexCoord::new(*q, *r)).collect()
}

fn ai_deploy(
    g: &Ground,
    units: &mut [Battalion],
    e_zone: &[HexCoord],
    p_zone: &[HexCoord],
    side: Side,
    tactic: CombatTactic,
    pre_used: &HashSet<(i32, i32)>,
    only_division: Option<&str>,
) {
    let only = only_division.map(|n| division_number(&division_names(units), n));
    let (ez, pz, used) = (e_zone.to_vec(), p_zone.to_vec(), hexes(pre_used));
    settle(g, units, e_zone, p_zone, side, tactic, |map, field, lines, book| {
        deploy_side(map, field, &ez, &pz, lines, side, tactic, &used, only, book)
    });
}

fn ai_deploy_impl(
    g: &Ground,
    units: &mut [Battalion],
    e_zone: &[HexCoord],
    p_zone: &[HexCoord],
    side: Side,
    tactic: CombatTactic,
    pre_used: &HashSet<(i32, i32)>,
    only_division: Option<&str>,
    sector_divisions: Option<&[String]>,
    only_undeployed: bool,
) {
    let names = division_names(units);
    let only = only_division.map(|n| division_number(&names, n));
    let order: Option<Vec<usize>> =
        sector_divisions.map(|l| l.iter().map(|n| division_number(&names, n)).collect());
    let (ez, pz, used) = (e_zone.to_vec(), p_zone.to_vec(), hexes(pre_used));
    settle(g, units, e_zone, p_zone, side, tactic, |map, field, lines, book| {
        deploy(
            map,
            field,
            &ez,
            &pz,
            lines,
            side,
            tactic,
            &used,
            only,
            order.as_ref(),
            only_undeployed,
            book,
        )
    });
}

#[test]
fn direct_fire_deploys_behind_river_shield() {
    let mut g = Ground::new(18, 8, Terrain::Plains);
    for r in 0..8 {
        g.set_terrain(HexCoord::new(8, r), Terrain::River);
    }
    let p_zone: Vec<HexCoord> = (0..8)
        .flat_map(|r| [HexCoord::new(0, r), HexCoord::new(1, r)])
        .collect();
    let e_zone: Vec<HexCoord> = (6..=14)
        .filter(|q| *q != 8)
        .map(|q| HexCoord::new(q, 3))
        .collect();
    let mut units = vec![
        unit(1, UnitType::Infantry, Side::Defender, 1),
        unit(2, UnitType::Infantry, Side::Defender, 1),
        unit(3, UnitType::Infantry, Side::Defender, 1),
    ];
    ai_deploy(
        &g,
        &mut units,
        &e_zone,
        &p_zone,
        Side::Defender,
        CombatTactic::Default,
        &HashSet::new(),
        None,
    );
    for u in &units {
        assert!(
            u.position.q > 8,
            "must hold the far (east) bank, got {:?}",
            u.position
        );
    }
    assert!(
        units.iter().any(|u| u.position.q == 9),
        "line should hug the east bank"
    );
}

#[test]
fn direct_fire_prefers_defensive_terrain() {
    let mut g = Ground::new(16, 6, Terrain::Plains);
    g.set_terrain(HexCoord::new(9, 3), Terrain::Forest);
    let p_zone = vec![HexCoord::new(0, 3), HexCoord::new(1, 3)];
    let e_zone = vec![
        HexCoord::new(8, 3),
        HexCoord::new(9, 3),
        HexCoord::new(10, 3),
    ];
    let mut units = vec![unit(1, UnitType::Infantry, Side::Defender, 1)];
    ai_deploy(
        &g,
        &mut units,
        &e_zone,
        &p_zone,
        Side::Defender,
        CombatTactic::Default,
        &HashSet::new(),
        None,
    );
    assert_eq!(
        units[0].position,
        HexCoord::new(9, 3),
        "forest one hex back beats bare front"
    );
}

#[test]
fn artillery_sits_in_standoff_band() {
    let g = Ground::new(22, 6, Terrain::Plains);
    let p_zone = vec![HexCoord::new(0, 3), HexCoord::new(1, 3)];
    let e_zone: Vec<HexCoord> = (8..=20).map(|q| HexCoord::new(q, 3)).collect();
    let mut units = vec![
        unit(1, UnitType::Infantry, Side::Defender, 1),
        unit(2, UnitType::ArtilleryBrigade, Side::Defender, 6),
    ];
    ai_deploy(
        &g,
        &mut units,
        &e_zone,
        &p_zone,
        Side::Defender,
        CombatTactic::Default,
        &HashSet::new(),
        None,
    );
    let front = units[0].position;
    let arty = units[1].position;
    assert_eq!(
        arty.distance(front),
        3,
        "range 6: standoff 3 behind the line"
    );
    assert!(arty.q > front.q, "behind the line (deeper rear)");
}

#[test]
fn hq_deploys_behind_division_on_leash() {
    let g = Ground::new(22, 6, Terrain::Plains);
    let p_zone = vec![HexCoord::new(0, 3), HexCoord::new(1, 3)];
    let e_zone: Vec<HexCoord> = (8..=20).map(|q| HexCoord::new(q, 3)).collect();
    let mut units = vec![
        unit(1, UnitType::Infantry, Side::Defender, 1),
        unit(2, UnitType::Infantry, Side::Defender, 1),
        unit(3, UnitType::Headquarters, Side::Defender, 1),
    ];
    for u in units.iter_mut() {
        u.division = "D".to_string();
    }
    ai_deploy(
        &g,
        &mut units,
        &e_zone,
        &p_zone,
        Side::Defender,
        CombatTactic::Default,
        &HashSet::new(),
        None,
    );
    let hq = units[2].position;
    let front_q = units[..2].iter().map(|u| u.position.q).min().unwrap();
    assert!(
        hq.q > front_q,
        "HQ behind the line: {hq:?} vs front q={front_q}"
    );
    let leash_d = units[..2]
        .iter()
        .map(|u| hq.distance(u.position))
        .min()
        .unwrap();
    assert!(leash_d <= 2, "on the leash (at most 2 of a member), got {leash_d}");
}

#[test]
fn line_spreads_along_the_threatened_border() {
    let g = Ground::new(16, 8, Terrain::Plains);
    let p_zone: Vec<HexCoord> = (0..8).map(|r| HexCoord::new(0, r)).collect();
    let e_zone: Vec<HexCoord> = (0..8)
        .flat_map(|r| (7..=13).map(move |q| HexCoord::new(q, r)))
        .collect();
    let mut units: Vec<Battalion> = (1..=12)
        .map(|i| unit(i, UnitType::Infantry, Side::Defender, 1))
        .collect();
    ai_deploy(
        &g,
        &mut units,
        &e_zone,
        &p_zone,
        Side::Defender,
        CombatTactic::Default,
        &HashSet::new(),
        None,
    );
    let rows: HashSet<i32> = units.iter().map(|u| u.position.r).collect();
    let cols: HashSet<i32> = units.iter().map(|u| u.position.q).collect();
    assert!(
        rows.len() >= 5,
        "line should run along the border, rows={rows:?}"
    );
    assert!(
        cols.len() >= 2,
        "at least a second (rear) rank, cols={cols:?}"
    );
    let pos: HashSet<(i32, i32)> = units.iter().map(|u| (u.position.q, u.position.r)).collect();
    assert_eq!(pos.len(), 12);
}

#[test]
fn division_anchors_fan_out_on_an_equidistant_band() {
    let g = Ground::new(9, 9, Terrain::Plains);
    let p_zone = vec![HexCoord::new(4, 4)];
    let e_zone: Vec<HexCoord> = (0..9)
        .flat_map(|q| (0..9).map(move |r| HexCoord::new(q, r)))
        .filter(|h| h.distance(HexCoord::new(4, 4)) == 3)
        .collect();
    assert_eq!(e_zone.len(), 18, "the distance-3 ring");
    let mut units: Vec<Battalion> = (1..=6)
        .map(|i| {
            let mut u = unit(i, UnitType::Infantry, Side::Defender, 1);
            u.division = format!("D{i}");
            u
        })
        .collect();
    ai_deploy(
        &g,
        &mut units,
        &e_zone,
        &p_zone,
        Side::Defender,
        CombatTactic::Default,
        &HashSet::new(),
        None,
    );
    let rows: HashSet<i32> = units.iter().map(|u| u.position.r).collect();
    let cols: HashSet<i32> = units.iter().map(|u| u.position.q).collect();
    assert!(rows.len() >= 3, "anchors fan out vertically, rows={rows:?}");
    assert!(
        cols.len() >= 2,
        "anchors fan out horizontally, cols={cols:?}"
    );
    let pos: HashSet<(i32, i32)> = units.iter().map(|u| (u.position.q, u.position.r)).collect();
    assert_eq!(pos.len(), 6, "each division takes its own hex, got {pos:?}");
}

#[test]
fn line_occupies_city_ground() {
    let mut g = Ground::new(16, 8, Terrain::Plains);
    for r in 0..8 {
        g.set_terrain(HexCoord::new(9, r), Terrain::Urban);
    }
    let p_zone: Vec<HexCoord> = (0..8).map(|r| HexCoord::new(0, r)).collect();
    let e_zone: Vec<HexCoord> = (0..8)
        .flat_map(|r| (7..=13).map(move |q| HexCoord::new(q, r)))
        .collect();
    let mut units: Vec<Battalion> = (1..=4)
        .map(|i| unit(i, UnitType::Infantry, Side::Defender, 1))
        .collect();
    ai_deploy(
        &g,
        &mut units,
        &e_zone,
        &p_zone,
        Side::Defender,
        CombatTactic::Default,
        &HashSet::new(),
        None,
    );
    assert!(
        units.iter().any(|u| u.position.q == 9),
        "defender must occupy the city, got {:?}",
        units.iter().map(|u| u.position).collect::<Vec<_>>()
    );
}

#[test]
fn attacker_hugs_the_front_not_the_city() {
    let mut g = Ground::new(16, 8, Terrain::Plains);
    for r in 0..8 {
        g.set_terrain(HexCoord::new(13, r), Terrain::Urban);
    }
    let p_zone: Vec<HexCoord> = (0..8).map(|r| HexCoord::new(0, r)).collect();
    let e_zone: Vec<HexCoord> = (0..8)
        .flat_map(|r| (7..=13).map(move |q| HexCoord::new(q, r)))
        .collect();
    let mut units: Vec<Battalion> = (1..=3)
        .map(|i| unit(i, UnitType::Infantry, Side::Attacker, 1))
        .collect();
    ai_deploy(
        &g,
        &mut units,
        &e_zone,
        &p_zone,
        Side::Attacker,
        CombatTactic::Default,
        &HashSet::new(),
        None,
    );
    assert!(
        units.iter().all(|u| u.position.q < 12),
        "attacker must hug the front, not the deep city, got {:?}",
        units.iter().map(|u| u.position).collect::<Vec<_>>()
    );
}

#[test]
fn deep_city_gets_a_garrison_quota() {
    let mut g = Ground::new(24, 10, Terrain::Plains);
    for r in 2..8 {
        g.set_terrain(HexCoord::new(18, r), Terrain::Urban);
    }
    let p_zone: Vec<HexCoord> = (0..10).map(|r| HexCoord::new(0, r)).collect();
    let e_zone: Vec<HexCoord> = (0..10)
        .flat_map(|r| (4..=20).map(move |q| HexCoord::new(q, r)))
        .collect();
    let mut units: Vec<Battalion> = (1..=18)
        .map(|i| unit(i, UnitType::Infantry, Side::Defender, 1))
        .collect();
    ai_deploy(
        &g,
        &mut units,
        &e_zone,
        &p_zone,
        Side::Defender,
        CombatTactic::Default,
        &HashSet::new(),
        None,
    );
    let in_city = units
        .iter()
        .filter(|u| u.position.q >= 18)
        .map(|u| u.position)
        .collect::<Vec<_>>();
    assert!(
        in_city.len() >= 3,
        "the deep city needs a garrison quota, got {:?}",
        units.iter().map(|u| u.position).collect::<Vec<_>>()
    );
}

#[test]
fn line_follows_the_boundary_not_the_enemy_centroid() {
    let g = Ground::new(14, 12, Terrain::Plains);
    let p_zone: Vec<HexCoord> = (0..=11)
        .flat_map(|q| [HexCoord::new(q, 0), HexCoord::new(q, 1)])
        .collect();
    let e_zone: Vec<HexCoord> = (0..=11)
        .flat_map(|q| (5..=10).map(move |r| HexCoord::new(q, r)))
        .collect();
    let mut units: Vec<Battalion> = (1..=12)
        .map(|i| unit(i, UnitType::Infantry, Side::Defender, 1))
        .collect();
    ai_deploy(
        &g,
        &mut units,
        &e_zone,
        &p_zone,
        Side::Defender,
        CombatTactic::Default,
        &HashSet::new(),
        None,
    );
    let cols: HashSet<i32> = units.iter().map(|u| u.position.q).collect();
    assert!(
        cols.len() >= 8,
        "line must spread along the full boundary, cols={cols:?}",
    );
}

#[test]
fn urban_defense_garrisons_the_whole_line_in_the_city() {
    let mut g = Ground::new(24, 10, Terrain::Plains);
    for r in 0..10 {
        g.set_terrain(HexCoord::new(10, r), Terrain::Urban);
    }
    let p_zone: Vec<HexCoord> = (0..10).map(|r| HexCoord::new(0, r)).collect();
    let e_zone: Vec<HexCoord> = (0..10)
        .flat_map(|r| (3..=12).map(move |q| HexCoord::new(q, r)))
        .collect();
    let mut units: Vec<Battalion> = (1..=8)
        .map(|i| unit(i, UnitType::Infantry, Side::Defender, 1))
        .collect();
    ai_deploy(
        &g,
        &mut units,
        &e_zone,
        &p_zone,
        Side::Defender,
        CombatTactic::UrbanDefense,
        &HashSet::new(),
        None,
    );
    let positions = units.iter().map(|u| u.position).collect::<Vec<_>>();
    assert!(
        units.iter().all(|u| u.position.q == 10),
        "urban defense puts the WHOLE line in the city, got {positions:?}"
    );
}

#[test]
fn ambush_lurks_in_cover_not_on_the_bare_border() {
    let mut g = Ground::new(24, 8, Terrain::Plains);
    for r in 0..8 {
        g.set_terrain(HexCoord::new(10, r), Terrain::Forest);
    }
    let p_zone: Vec<HexCoord> = (0..8).map(|r| HexCoord::new(0, r)).collect();
    let e_zone: Vec<HexCoord> = (0..8)
        .flat_map(|r| (4..=10).map(move |q| HexCoord::new(q, r)))
        .collect();
    let mut units: Vec<Battalion> = (1..=3)
        .map(|i| unit(i, UnitType::Infantry, Side::Defender, 1))
        .collect();
    ai_deploy(
        &g,
        &mut units,
        &e_zone,
        &p_zone,
        Side::Defender,
        CombatTactic::Ambush,
        &HashSet::new(),
        None,
    );
    let positions = units.iter().map(|u| u.position).collect::<Vec<_>>();
    assert!(
        units.iter().any(|u| u.position.q == 10),
        "ambush lurks in the forest column, got {positions:?}"
    );
}

#[test]
fn pre_placed_hexes_are_never_retaken() {
    let g = Ground::new(16, 8, Terrain::Plains);
    let p_zone: Vec<HexCoord> = (0..8).map(|r| HexCoord::new(0, r)).collect();
    let e_zone: Vec<HexCoord> = (0..8)
        .flat_map(|r| (7..=13).map(move |q| HexCoord::new(q, r)))
        .collect();
    let mut pre = HashSet::new();
    pre.insert((7, 0));
    let mut units: Vec<Battalion> = (1..=6)
        .map(|i| unit(i, UnitType::Infantry, Side::Defender, 1))
        .collect();
    ai_deploy(
        &g,
        &mut units,
        &e_zone,
        &p_zone,
        Side::Defender,
        CombatTactic::Default,
        &pre,
        None,
    );
    for u in &units {
        assert!(
            !pre.contains(&(u.position.q, u.position.r)),
            "AI must not re-take a pre-placed hex, put {:?} on it",
            u.position
        );
    }
    let pos: HashSet<(i32, i32)> = units.iter().map(|u| (u.position.q, u.position.r)).collect();
    assert_eq!(pos.len(), 6, "planner still spreads across the zone");
}

#[test]
fn only_division_leaves_other_divisions_untouched() {
    let g = Ground::new(16, 8, Terrain::Plains);
    let p_zone: Vec<HexCoord> = (0..8).map(|r| HexCoord::new(0, r)).collect();
    let e_zone: Vec<HexCoord> = (0..8)
        .flat_map(|r| (7..=13).map(move |q| HexCoord::new(q, r)))
        .collect();
    let mut units: Vec<Battalion> = (1..=6)
        .map(|i| {
            let mut u = unit(i, UnitType::Infantry, Side::Defender, 1);
            u.division = if i % 2 == 0 {
                "A Div".to_string()
            } else {
                "B Div".to_string()
            };
            u
        })
        .collect();
    let before: Vec<HexCoord> = units.iter().map(|u| u.position).collect();
    ai_deploy(
        &g,
        &mut units,
        &e_zone,
        &p_zone,
        Side::Defender,
        CombatTactic::Default,
        &HashSet::new(),
        Some("A Div"),
    );
    for (i, u) in units.iter().enumerate() {
        if u.division == "B Div" {
            assert_eq!(
                u.position, before[i],
                "B Div must stay untouched, got {:?}",
                u.position
            );
        } else {
            assert_ne!(
                u.position, before[i],
                "A Div should have been placed (was OFFBOARD sentinel)"
            );
        }
    }
    let pos: HashSet<(i32, i32)> = units
        .iter()
        .filter(|u| u.division == "A Div")
        .map(|u| (u.position.q, u.position.r))
        .collect();
    assert_eq!(pos.len(), 3);
}

#[test]
fn division_members_deploy_cohesively() {
    let g = Ground::new(24, 12, Terrain::Plains);
    let p_zone: Vec<HexCoord> = (0..12).map(|r| HexCoord::new(0, r)).collect();
    let e_zone: Vec<HexCoord> = (0..12)
        .flat_map(|r| (5..=20).map(move |q| HexCoord::new(q, r)))
        .collect();
    let mut units: Vec<Battalion> = (0..12)
        .map(|i| {
            let mut u = unit(i + 1, UnitType::Infantry, Side::Defender, 1);
            u.division = format!("Div {}", (i % 3) + 1);
            u
        })
        .collect();
    ai_deploy(
        &g,
        &mut units,
        &e_zone,
        &p_zone,
        Side::Defender,
        CombatTactic::Default,
        &HashSet::new(),
        None,
    );
    let diameter = |name: &str| {
        let pos: Vec<HexCoord> = units
            .iter()
            .filter(|u| u.division == name)
            .map(|u| u.position)
            .collect();
        pos.iter()
            .flat_map(|a| pos.iter().map(move |b| a.distance(*b)))
            .max()
            .unwrap_or(0)
    };
    for name in ["Div 1", "Div 2", "Div 3"] {
        assert!(
            diameter(name) <= 8,
            "{name} scattered across the front: diameter {}",
            diameter(name)
        );
    }
    let all: Vec<HexCoord> = units.iter().map(|u| u.position).collect();
    let global = all
        .iter()
        .flat_map(|a| all.iter().map(move |b| a.distance(*b)))
        .max()
        .unwrap_or(0);
    assert!(global >= 9, "the line must still spread, diameter {global}");
}

#[test]
fn artillery_anchors_to_its_own_division() {
    let g = Ground::new(30, 12, Terrain::Plains);
    let p_zone: Vec<HexCoord> = (0..12).map(|r| HexCoord::new(0, r)).collect();
    let e_zone: Vec<HexCoord> = (0..12)
        .flat_map(|r| (5..=25).map(move |q| HexCoord::new(q, r)))
        .collect();
    let mut units: Vec<Battalion> = (0..6)
        .map(|i| {
            let mut u = unit(i + 1, UnitType::Infantry, Side::Defender, 1);
            u.division = format!("Div {}", (i % 2) + 1);
            u
        })
        .collect();
    for (i, div) in [(6, "Div 1"), (7, "Div 2")].into_iter() {
        let mut a = unit(i + 1, UnitType::ArtilleryBrigade, Side::Defender, 6);
        a.division = div.to_string();
        units.push(a);
    }
    ai_deploy(
        &g,
        &mut units,
        &e_zone,
        &p_zone,
        Side::Defender,
        CombatTactic::Default,
        &HashSet::new(),
        None,
    );
    for i in [6usize, 7] {
        let div = units[i].division.clone();
        let own_line: Vec<HexCoord> = units[..6]
            .iter()
            .filter(|u| u.division == div)
            .map(|u| u.position)
            .collect();
        let d_own = own_line
            .iter()
            .map(|h| units[i].position.distance(*h))
            .min()
            .unwrap();
        let d_other: i64 = units[..6]
            .iter()
            .filter(|u| u.division != div)
            .map(|u| units[i].position.distance(u.position))
            .min()
            .unwrap();
        assert!(
            d_own <= d_other,
            "{div} gun must sit behind its own line: own {d_own} vs other {d_other}"
        );
    }
}

#[test]
fn cohesion_stacks_in_depth_on_a_narrow_front() {
    let g = Ground::new(14, 12, Terrain::Plains);
    let p_zone: Vec<HexCoord> = (0..12).map(|r| HexCoord::new(0, r)).collect();
    let e_zone: Vec<HexCoord> = (0..12)
        .flat_map(|r| (5..=6).map(move |q| HexCoord::new(q, r)))
        .collect();
    let mut units: Vec<Battalion> = (0..9)
        .map(|i| {
            let mut u = unit(i + 1, UnitType::Infantry, Side::Defender, 1);
            u.division = format!("Div {}", (i % 3) + 1);
            u
        })
        .collect();
    ai_deploy(
        &g,
        &mut units,
        &e_zone,
        &p_zone,
        Side::Defender,
        CombatTactic::Default,
        &HashSet::new(),
        None,
    );
    for name in ["Div 1", "Div 2", "Div 3"] {
        let pos: Vec<HexCoord> = units
            .iter()
            .filter(|u| u.division == name)
            .map(|u| u.position)
            .collect();
        let d = pos
            .iter()
            .flat_map(|a| pos.iter().map(move |b| a.distance(*b)))
            .max()
            .unwrap_or(0);
        assert!(
            d <= 5,
            "{name} smeared along the corridor: diameter {d} ({pos:?})"
        );
    }
}

#[test]
fn cohesion_never_overrides_the_river_shield() {
    let mut g = Ground::new(18, 8, Terrain::Plains);
    for r in 0..8 {
        g.set_terrain(HexCoord::new(8, r), Terrain::River);
    }
    let p_zone: Vec<HexCoord> = (0..8)
        .flat_map(|r| [HexCoord::new(0, r), HexCoord::new(1, r)])
        .collect();
    let e_zone: Vec<HexCoord> = (6..=14)
        .filter(|q| *q != 8)
        .map(|q| HexCoord::new(q, 3))
        .collect();
    let mut units: Vec<Battalion> = (0..4)
        .map(|i| {
            let mut u = unit(i + 1, UnitType::Infantry, Side::Defender, 1);
            u.division = format!("Div {}", (i % 2) + 1);
            u
        })
        .collect();
    ai_deploy(
        &g,
        &mut units,
        &e_zone,
        &p_zone,
        Side::Defender,
        CombatTactic::Default,
        &HashSet::new(),
        None,
    );
    for u in &units {
        assert!(
            u.position.q > 8,
            "river shield must beat the cohesion drag: {:?} west of the river",
            u.position
        );
    }
    for name in ["Div 1", "Div 2"] {
        let pos: Vec<HexCoord> = units
            .iter()
            .filter(|u| u.division == name)
            .map(|u| u.position)
            .collect();
        assert!(
            pos[0].distance(pos[1]) <= 3,
            "{name}'s pair split by the shield race: {pos:?}"
        );
    }
}

#[test]
fn garrison_split_keeps_the_rest_of_the_division_cohesive() {
    let mut g = Ground::new(24, 10, Terrain::Plains);
    for r in 2..8 {
        g.set_terrain(HexCoord::new(18, r), Terrain::Urban);
    }
    let p_zone: Vec<HexCoord> = (0..10).map(|r| HexCoord::new(0, r)).collect();
    let e_zone: Vec<HexCoord> = (0..10)
        .flat_map(|r| (4..=20).map(move |q| HexCoord::new(q, r)))
        .collect();
    let mut units: Vec<Battalion> = (0..12)
        .map(|i| {
            let mut u = unit(i + 1, UnitType::Infantry, Side::Defender, 1);
            u.division = format!("Div {}", (i % 3) + 1);
            if i % 3 == 0 {
                u.org = 40.0;
            }
            u
        })
        .collect();
    ai_deploy(
        &g,
        &mut units,
        &e_zone,
        &p_zone,
        Side::Defender,
        CombatTactic::Default,
        &HashSet::new(),
        None,
    );
    for name in ["Div 1", "Div 2", "Div 3"] {
        let line: Vec<HexCoord> = units
            .iter()
            .filter(|u| u.division == name && u.position.q < 18)
            .map(|u| u.position)
            .collect();
        if line.len() < 2 {
            continue;
        }
        let d = line
            .iter()
            .flat_map(|a| line.iter().map(move |b| a.distance(*b)))
            .max()
            .unwrap_or(0);
        assert!(
            d <= 6,
            "{name}'s line scattered after the garrison split: diameter {d}"
        );
    }
}

#[test]
fn most_battalions_start_in_command() {
    let g = Ground::new(24, 14, Terrain::Plains);
    let p_zone: Vec<HexCoord> = (0..14).map(|r| HexCoord::new(0, r)).collect();
    let e_zone: Vec<HexCoord> = (0..14)
        .flat_map(|r| (5..=20).map(move |q| HexCoord::new(q, r)))
        .collect();
    let mut units: Vec<Battalion> = (0..16)
        .map(|i| {
            let mut u = unit(i + 1, UnitType::Infantry, Side::Defender, 1);
            u.division = format!("Div {}", (i % 4) + 1);
            u
        })
        .collect();
    synthesize_hqs(&mut units, 100, Side::Defender);
    ai_deploy(
        &g,
        &mut units,
        &e_zone,
        &p_zone,
        Side::Defender,
        CombatTactic::Default,
        &HashSet::new(),
        None,
    );
    let (mut in_cmd, mut total) = (0usize, 0usize);
    for u in units.iter() {
        if u.is_hq() {
            continue;
        }
        total += 1;
        if in_command(&units, u) {
            in_cmd += 1;
        }
    }
    let frac = in_cmd as f32 / total as f32;
    assert!(
        frac >= 0.60,
        "only {in_cmd}/{total} ({:.0}%) start in command: the divisions are too loose",
        frac * 100.0
    );
}

#[test]
fn divisions_own_disjoint_sectors_in_roster_order() {
    let g = Ground::new(20, 16, Terrain::Plains);
    let p_zone: Vec<HexCoord> = (0..16).map(|r| HexCoord::new(0, r)).collect();
    let e_zone: Vec<HexCoord> = (0..16)
        .flat_map(|r| (5..=14).map(move |q| HexCoord::new(q, r)))
        .collect();
    let mut units: Vec<Battalion> = (0..16)
        .map(|i| {
            let mut u = unit(i + 1, UnitType::Infantry, Side::Defender, 1);
            u.division = format!("Div {}", (i % 4) + 1);
            u
        })
        .collect();
    ai_deploy(
        &g,
        &mut units,
        &e_zone,
        &p_zone,
        Side::Defender,
        CombatTactic::Default,
        &HashSet::new(),
        None,
    );
    let mean_r = |name: &str| {
        let pos: Vec<HexCoord> = units
            .iter()
            .filter(|u| u.division == name)
            .map(|u| u.position)
            .collect();
        pos.iter().map(|h| h.r as f32).sum::<f32>() / pos.len().max(1) as f32
    };
    let m1 = mean_r("Div 1");
    let m2 = mean_r("Div 2");
    let m3 = mean_r("Div 3");
    let m4 = mean_r("Div 4");
    assert!(
        m1 < m2 && m2 < m3 && m3 < m4,
        "sectors must follow roster order along the band: {m1:.1} {m2:.1} {m3:.1} {m4:.1}"
    );
    let all: Vec<HexCoord> = units.iter().map(|u| u.position).collect();
    let rows: HashSet<i32> = all.iter().map(|h| h.r).collect();
    assert!(
        rows.len() >= 10,
        "the line must cover the band, rows={rows:?}"
    );
}

#[test]
fn two_strip_zone_deploys_every_division() {
    let g = Ground::new(40, 18, Terrain::Plains);
    let p_zone: Vec<HexCoord> = (2..16)
        .flat_map(|r| (16..=22).map(move |q| HexCoord::new(q, r)))
        .collect();
    let e_zone: Vec<HexCoord> = (2..16)
        .flat_map(|r| (9..=13).map(move |q| HexCoord::new(q, r)))
        .chain((2..16).flat_map(|r| (25..=29).map(move |q| HexCoord::new(q, r))))
        .collect();
    let mut units: Vec<Battalion> = (0..12)
        .map(|i| {
            let mut u = unit(i + 1, UnitType::Infantry, Side::Attacker, 1);
            u.division = format!("Div {}", (i % 6) + 1);
            u
        })
        .collect();
    ai_deploy(
        &g,
        &mut units,
        &e_zone,
        &p_zone,
        Side::Attacker,
        CombatTactic::Blitz,
        &HashSet::new(),
        None,
    );
    for d in 1..=6 {
        let name = format!("Div {d}");
        let members: Vec<HexCoord> = units
            .iter()
            .filter(|u| u.division == name)
            .map(|u| u.position)
            .collect();
        assert_eq!(
            members.len(),
            2,
            "{name} must deploy both battalions (got {members:?})"
        );
        assert!(
            members.iter().all(|h| h != &offboard()),
            "{name} left a battalion OFFBOARD"
        );
    }
    let qs = |d: usize| {
        units
            .iter()
            .filter(|u| u.division == format!("Div {d}"))
            .map(|u| u.position.q)
            .collect::<Vec<i32>>()
    };
    let (q1, q6) = (qs(1), qs(6));
    assert!(
        q1.iter().all(|q| *q <= 19) != q6.iter().all(|q| *q <= 19),
        "Div 1 {q1:?} and Div 6 {q6:?} must sit on opposite strips"
    );
    let mut units2: Vec<Battalion> = (0..12)
        .map(|i| {
            let mut u = unit(100 + i, UnitType::Infantry, Side::Attacker, 1);
            u.division = format!("Div {}", (i % 6) + 1);
            u
        })
        .collect();
    ai_deploy(
        &g,
        &mut units2,
        &e_zone,
        &p_zone,
        Side::Attacker,
        CombatTactic::Encirclement,
        &HashSet::new(),
        None,
    );
    assert!(
        units2.iter().all(|u| u.position != offboard()),
        "encirclement (TwoWings) must deploy every unit on a two-strip zone"
    );
}

#[test]
fn sector_divisions_orders_the_slices() {
    let g = Ground::new(20, 16, Terrain::Plains);
    let p_zone: Vec<HexCoord> = (0..16).map(|r| HexCoord::new(0, r)).collect();
    let e_zone: Vec<HexCoord> = (0..16)
        .flat_map(|r| (5..=14).map(move |q| HexCoord::new(q, r)))
        .collect();
    let mut units: Vec<Battalion> = (0..8)
        .map(|i| {
            let mut u = unit(i + 1, UnitType::Infantry, Side::Defender, 1);
            u.division = format!("Div {}", (i % 2) + 1);
            u
        })
        .collect();
    let order = vec!["Div 1".to_string(), "Div 2".to_string()];
    ai_deploy_impl(
        &g,
        &mut units,
        &e_zone,
        &p_zone,
        Side::Defender,
        CombatTactic::Default,
        &HashSet::new(),
        Some("Div 2"),
        Some(&order),
        false,
    );
    let div2_rows: HashSet<i32> = units
        .iter()
        .filter(|u| u.division == "Div 2")
        .map(|u| u.position.r)
        .collect();
    let div2_mean = units
        .iter()
        .filter(|u| u.division == "Div 2")
        .map(|u| u.position.r as f32)
        .sum::<f32>()
        / 4.0;
    assert!(
        div2_mean > 6.0,
        "Div 2 (the second sector) must deploy to the SOUTH half of the band, mean r {div2_mean:.1}, rows {div2_rows:?}"
    );
}

#[test]
fn defender_deploys_a_second_echelon() {
    let g = Ground::new(24, 16, Terrain::Plains);
    let p_zone: Vec<HexCoord> = (0..16).map(|r| HexCoord::new(0, r)).collect();
    let e_zone: Vec<HexCoord> = (0..16)
        .flat_map(|r| (5..=20).map(move |q| HexCoord::new(q, r)))
        .collect();
    let mut units: Vec<Battalion> = (0..20)
        .map(|i| {
            let mut u = unit(i + 1, UnitType::Infantry, Side::Defender, 1);
            u.division = "D".to_string();
            u
        })
        .collect();
    ai_deploy(
        &g,
        &mut units,
        &e_zone,
        &p_zone,
        Side::Defender,
        CombatTactic::ElasticDefense,
        &HashSet::new(),
        None,
    );
    let front_rank: Vec<i32> = units.iter().map(|u| u.position.q).collect();
    let min_q = *front_rank.iter().min().unwrap();
    let max_q = *front_rank.iter().max().unwrap();
    let rear = units.iter().filter(|u| u.position.q >= min_q + 2).count();
    assert!(
        rear >= 5,
        "elastic defense needs a second echelon behind the line (min_q {min_q}, max_q {max_q}), rear units {rear}"
    );
    assert!(
        max_q >= min_q + 2,
        "the echelon must reach a real second band"
    );
}

#[test]
fn tactical_withdrawal_echelons_in_depth() {
    let g = Ground::new(30, 12, Terrain::Plains);
    let p_zone: Vec<HexCoord> = (0..12).map(|r| HexCoord::new(0, r)).collect();
    let e_zone: Vec<HexCoord> = (0..12)
        .flat_map(|r| (5..=26).map(move |q| HexCoord::new(q, r)))
        .collect();
    let mut units: Vec<Battalion> = (0..18)
        .map(|i| {
            let mut u = unit(i + 1, UnitType::Infantry, Side::Defender, 1);
            u.division = "D".to_string();
            u
        })
        .collect();
    ai_deploy(
        &g,
        &mut units,
        &e_zone,
        &p_zone,
        Side::Defender,
        CombatTactic::TacticalWithdrawal,
        &HashSet::new(),
        None,
    );
    let qs: Vec<i32> = units.iter().map(|u| u.position.q).collect();
    let min_q = *qs.iter().min().unwrap();
    let max_q = *qs.iter().max().unwrap();
    assert!(
        max_q - min_q >= 5,
        "tactical withdrawal must echelon in depth, q span {} (min {min_q}, max {max_q})",
        max_q - min_q
    );
    let bands: HashSet<i32> = qs.iter().map(|q| (q - min_q) / 3).collect();
    assert!(bands.len() >= 3, "three echelons expected, bands={bands:?}");
}

#[test]
fn blitz_concentrates_on_the_centre() {
    let g = Ground::new(20, 24, Terrain::Plains);
    let p_zone: Vec<HexCoord> = (0..24).map(|r| HexCoord::new(0, r)).collect();
    let e_zone: Vec<HexCoord> = (0..24)
        .flat_map(|r| (5..=14).map(move |q| HexCoord::new(q, r)))
        .collect();
    let mut units: Vec<Battalion> = (0..12)
        .map(|i| unit(i + 1, UnitType::Infantry, Side::Attacker, 1))
        .collect();
    ai_deploy(
        &g,
        &mut units,
        &e_zone,
        &p_zone,
        Side::Attacker,
        CombatTactic::Blitz,
        &HashSet::new(),
        None,
    );
    let rs: Vec<i32> = units.iter().map(|u| u.position.r).collect();
    let min_r = *rs.iter().min().unwrap();
    let max_r = *rs.iter().max().unwrap();
    let span = max_r - min_r;
    assert!(
        span <= 19,
        "blitz concentrates on the axis: occupied r-span {span} (min {min_r}, max {max_r}) of 24 rows"
    );
}

#[test]
fn garrison_cap_keeps_weak_divisions_on_the_line() {
    let mut g = Ground::new(24, 10, Terrain::Plains);
    for r in 2..8 {
        g.set_terrain(HexCoord::new(18, r), Terrain::Urban);
    }
    let p_zone: Vec<HexCoord> = (0..10).map(|r| HexCoord::new(0, r)).collect();
    let e_zone: Vec<HexCoord> = (0..10)
        .flat_map(|r| (4..=20).map(move |q| HexCoord::new(q, r)))
        .collect();
    let mut units: Vec<Battalion> = (0..12)
        .map(|i| {
            let mut u = unit(i + 1, UnitType::Infantry, Side::Defender, 1);
            u.division = if i < 6 {
                "Weak".to_string()
            } else {
                "Strong".to_string()
            };
            if i < 6 {
                u.org = 40.0;
            }
            u
        })
        .collect();
    ai_deploy(
        &g,
        &mut units,
        &e_zone,
        &p_zone,
        Side::Defender,
        CombatTactic::Default,
        &HashSet::new(),
        None,
    );
    let weak_in_city = units
        .iter()
        .filter(|u| u.division == "Weak" && u.position.q >= 18)
        .count();
    assert!(
        weak_in_city <= 2,
        "at most a third of the weak division may garrison ({weak_in_city} in the city of 6)"
    );
}

#[test]
fn aa_deploys_behind_the_line_not_on_it() {
    let g = Ground::new(22, 8, Terrain::Plains);
    let p_zone: Vec<HexCoord> = (0..8).map(|r| HexCoord::new(0, r)).collect();
    let e_zone: Vec<HexCoord> = (0..8)
        .flat_map(|r| (6..=18).map(move |q| HexCoord::new(q, r)))
        .collect();
    let mut units = vec![
        unit(1, UnitType::Infantry, Side::Defender, 1),
        unit(2, UnitType::AntiAirBrigade, Side::Defender, 1),
    ];
    ai_deploy(
        &g,
        &mut units,
        &e_zone,
        &p_zone,
        Side::Defender,
        CombatTactic::Default,
        &HashSet::new(),
        None,
    );
    let front = |h: HexCoord| p_zone.iter().map(|p| h.distance(*p)).min().unwrap();
    let inf_f = front(units[0].position);
    let aa_f = front(units[1].position);
    assert!(
        aa_f >= inf_f + 1,
        "AA must sit behind the line: line at {inf_f}, AA at {aa_f} ({:?})",
        units[1].position
    );
    assert!(
        aa_f <= inf_f + 5,
        "AA must stay in the support band, not the deep rear (line {inf_f}, AA {aa_f})"
    );
}

#[test]
fn at_guns_sit_in_the_second_line() {
    let g = Ground::new(22, 8, Terrain::Plains);
    let p_zone: Vec<HexCoord> = (0..8).map(|r| HexCoord::new(0, r)).collect();
    let e_zone: Vec<HexCoord> = (0..8)
        .flat_map(|r| (6..=18).map(move |q| HexCoord::new(q, r)))
        .collect();
    let mut units = vec![
        unit(1, UnitType::Infantry, Side::Defender, 1),
        unit(2, UnitType::AntiTankBrigade, Side::Defender, 2),
    ];
    ai_deploy(
        &g,
        &mut units,
        &e_zone,
        &p_zone,
        Side::Defender,
        CombatTactic::Default,
        &HashSet::new(),
        None,
    );
    let front = |h: HexCoord| p_zone.iter().map(|p| h.distance(*p)).min().unwrap();
    let inf_f = front(units[0].position);
    let at_f = front(units[1].position);
    assert!(
        at_f >= inf_f + 1,
        "AT must sit in the second line: line at {inf_f}, AT at {at_f} ({:?})",
        units[1].position
    );
    assert!(
        at_f <= inf_f + 4,
        "AT must stay near the line (second-line siting), not the deep rear (line {inf_f}, AT {at_f})"
    );
}

#[test]
fn support_guns_cluster_behind_the_line_centre() {
    let g = Ground::new(30, 40, Terrain::Plains);
    let p_zone: Vec<HexCoord> = (0..40).map(|r| HexCoord::new(0, r)).collect();
    let e_zone: Vec<HexCoord> = (0..40)
        .flat_map(|r| (5..=25).map(move |q| HexCoord::new(q, r)))
        .collect();
    let mut units: Vec<Battalion> = (0..8)
        .map(|i| {
            let mut u = unit(i + 1, UnitType::Infantry, Side::Defender, 1);
            u.division = "Div".to_string();
            u
        })
        .collect();
    for i in 0..3 {
        let mut a = unit(9 + i, UnitType::ArtilleryBrigade, Side::Defender, 9);
        a.division = "Div".to_string();
        units.push(a);
    }
    ai_deploy(
        &g,
        &mut units,
        &e_zone,
        &p_zone,
        Side::Defender,
        CombatTactic::Default,
        &HashSet::new(),
        None,
    );
    let line_rc = units[..8].iter().map(|u| u.position.r as f32).sum::<f32>() / 8.0;
    for (k, i) in [8usize, 9, 10].into_iter().enumerate() {
        let off = (units[i].position.r as f32 - line_rc).abs();
        let limit = 3.0 + k as f32 * SUPPORT_CLUSTER_STEP;
        assert!(
            off <= limit,
            "gun {i} must cluster behind the line centre ({line_rc:.1}), got r={} (off {off:.1}, limit {limit:.1})",
            units[i].position.r
        );
    }
}

#[test]
fn attacker_guns_keep_the_even_spread() {
    let g = Ground::new(30, 40, Terrain::Plains);
    let p_zone: Vec<HexCoord> = (0..40).map(|r| HexCoord::new(0, r)).collect();
    let e_zone: Vec<HexCoord> = (0..40)
        .flat_map(|r| (5..=25).map(move |q| HexCoord::new(q, r)))
        .collect();
    let mut units: Vec<Battalion> = (0..8)
        .map(|i| {
            let mut u = unit(i + 1, UnitType::Infantry, Side::Attacker, 1);
            u.division = "Div".to_string();
            u
        })
        .collect();
    for i in 0..3 {
        let mut a = unit(9 + i, UnitType::ArtilleryBrigade, Side::Attacker, 9);
        a.division = "Div".to_string();
        units.push(a);
    }
    ai_deploy(
        &g,
        &mut units,
        &e_zone,
        &p_zone,
        Side::Attacker,
        CombatTactic::Default,
        &HashSet::new(),
        None,
    );
    let line_rc = units[..8].iter().map(|u| u.position.r as f32).sum::<f32>() / 8.0;
    let max_off = [8usize, 9, 10]
        .into_iter()
        .map(|i| (units[i].position.r as f32 - line_rc).abs())
        .fold(0.0f32, f32::max);
    assert!(
        max_off > 6.0,
        "attacker guns must spread along the sector, not cluster at the line centre ({line_rc:.1}): {:?}",
        [8usize, 9, 10].map(|i| units[i].position.r)
    );
}

#[test]
fn support_only_division_gets_a_sector() {
    let g = Ground::new(22, 20, Terrain::Plains);
    let p_zone: Vec<HexCoord> = (0..20).map(|r| HexCoord::new(0, r)).collect();
    let e_zone: Vec<HexCoord> = (0..20)
        .flat_map(|r| (5..=18).map(move |q| HexCoord::new(q, r)))
        .collect();
    let mut units: Vec<Battalion> = (0..4)
        .map(|i| {
            let mut u = unit(i + 1, UnitType::Infantry, Side::Defender, 1);
            u.division = "Div A".to_string();
            u
        })
        .collect();
    for i in 0..2 {
        let mut at = unit(5 + i, UnitType::AntiTankBrigade, Side::Defender, 2);
        at.division = "Div B".to_string();
        units.push(at);
    }
    ai_deploy(
        &g,
        &mut units,
        &e_zone,
        &p_zone,
        Side::Defender,
        CombatTactic::Default,
        &HashSet::new(),
        None,
    );
    let mean_r = |name: &str| {
        let pos: Vec<HexCoord> = units
            .iter()
            .filter(|u| u.division == name)
            .map(|u| u.position)
            .collect();
        pos.iter().map(|h| h.r as f32).sum::<f32>() / pos.len().max(1) as f32
    };
    let a = mean_r("Div A");
    let b = mean_r("Div B");
    assert!(
        b > a + 3.0,
        "Div B's guns must deploy in THEIR slice: A mean r {a:.1}, B {b:.1}"
    );
    let front = |h: HexCoord| p_zone.iter().map(|p| h.distance(*p)).min().unwrap();
    let line_f = units[..4].iter().map(|u| front(u.position)).min().unwrap();
    for u in &units[4..] {
        assert!(
            front(u.position) >= line_f + 1,
            "Div B gun on the line: line at {line_f}, gun at {} ({:?})",
            front(u.position),
            u.position
        );
    }
}

#[test]
fn defender_deploys_behind_the_ridge_not_on_the_crest() {
    let mut g = Ground::new(24, 8, Terrain::Plains);
    for r in 0..8 {
        g.cell_mut(HexCoord::new(5, r)).unwrap().elevation = 2;
    }
    let p_zone: Vec<HexCoord> = (0..8).map(|r| HexCoord::new(0, r)).collect();
    let e_zone: Vec<HexCoord> = (0..8)
        .flat_map(|r| (4..=18).map(move |q| HexCoord::new(q, r)))
        .collect();
    let mut units: Vec<Battalion> = (1..=6)
        .map(|i| unit(i, UnitType::Infantry, Side::Defender, 1))
        .collect();
    ai_deploy(
        &g,
        &mut units,
        &e_zone,
        &p_zone,
        Side::Defender,
        CombatTactic::Default,
        &HashSet::new(),
        None,
    );
    let on_slope = units.iter().filter(|u| u.position.q == 6).count();
    assert!(
        on_slope >= 5,
        "the line must hold the reverse slope (q6, step = the q5 ridge), got {:?}",
        units.iter().map(|u| u.position).collect::<Vec<_>>()
    );
    assert!(
        units.iter().all(|u| u.position.q == 5 || u.position.q == 6),
        "units must be on the crest (q5, observer) or the reverse slope (q6), got {:?}",
        units.iter().map(|u| u.position).collect::<Vec<_>>()
    );
}

#[test]
fn defender_posts_thin_observation_screen_on_the_crest() {
    let mut g = Ground::new(24, 8, Terrain::Plains);
    for r in 0..8 {
        g.cell_mut(HexCoord::new(5, r)).unwrap().elevation = 2;
    }
    let p_zone: Vec<HexCoord> = (0..8).map(|r| HexCoord::new(0, r)).collect();
    let e_zone: Vec<HexCoord> = (0..8)
        .flat_map(|r| (4..=18).map(move |q| HexCoord::new(q, r)))
        .collect();
    let mut units: Vec<Battalion> = (1..=8)
        .map(|i| {
            let mut u = unit(i, UnitType::Infantry, Side::Defender, 1);
            if i == 1 {
                u.org = 40.0;
            }
            u
        })
        .collect();
    ai_deploy(
        &g,
        &mut units,
        &e_zone,
        &p_zone,
        Side::Defender,
        CombatTactic::Default,
        &HashSet::new(),
        None,
    );
    let weak = units.iter().find(|u| u.org == 40.0).unwrap();
    assert_eq!(
        weak.position.q, 5,
        "the weakest unit must man the crest observation post, got {:?}",
        weak.position
    );
    assert!(
        units
            .iter()
            .filter(|u| u.id != weak.id)
            .all(|u| u.position.q == 6),
        "the line holds the reverse slope, got {:?}",
        units
            .iter()
            .map(|u| (u.id, u.position))
            .collect::<Vec<_>>()
    );
}

#[test]
fn auto_deploy_leaves_hand_placed_units_untouched() {
    let g = Ground::new(16, 6, Terrain::Plains);
    let p_zone: Vec<HexCoord> = (0..6).map(|r| HexCoord::new(0, r)).collect();
    let e_zone: Vec<HexCoord> = (10..=14).map(|q| HexCoord::new(q, 2)).collect();
    let anchor = HexCoord::new(14, 2);
    let mut units = vec![
        unit(1, UnitType::Infantry, Side::Defender, 1),
        unit(2, UnitType::Infantry, Side::Defender, 1),
        unit(3, UnitType::Infantry, Side::Defender, 1),
    ];
    units[0].position = anchor;
    units[0].undeployed = false;
    units[1].undeployed = true;
    units[2].undeployed = true;
    let pre_used: HashSet<(i32, i32)> = [(anchor.q, anchor.r)].into_iter().collect();
    ai_deploy_impl(
        &g,
        &mut units,
        &e_zone,
        &p_zone,
        Side::Defender,
        CombatTactic::Default,
        &pre_used,
        None,
        None,
        true,
    );
    assert_eq!(
        units[0].position, anchor,
        "hand-placed unit must stay put, got {:?}",
        units[0].position
    );
    assert!(
        units[1..]
            .iter()
            .all(|u| u.position != anchor && e_zone.contains(&u.position)),
        "the OOB waiters deploy inside the zone off the taken hex: {:?}",
        units.iter().map(|u| (u.id, u.position)).collect::<Vec<_>>()
    );
}

// What a deployment asks, and what holds of every one.

fn board() -> (Ground, Vec<HexCoord>, Vec<HexCoord>) {
    let g = Ground::new(16, 8, Terrain::Plains);
    let p_zone: Vec<HexCoord> = (0..8).map(|r| HexCoord::new(0, r)).collect();
    let e_zone: Vec<HexCoord> =
        (0..8).flat_map(|r| (7..=13).map(move |q| HexCoord::new(q, r))).collect();
    (g, e_zone, p_zone)
}

#[test]
fn a_deployment_asks_for_its_tables_and_moves_nobody_before() {
    let (g, e_zone, p_zone) = board();
    let units = vec![unit(1, UnitType::Infantry, Side::Attacker, 1)];
    let names = division_names(&units);
    let before: Vec<BattalionUnit> = units.iter().map(|u| u.battalion_unit(&names)).collect();
    let mut field = before.clone();
    let lines: Vec<Vec<HexCoord>> = e_zone.iter().map(|h| samples(*h, mean(&p_zone))).collect();
    let book = DeployBook { tables: Vec::new() };
    let asked = deploy_side(
        &g.map(),
        &mut field,
        &e_zone,
        &p_zone,
        &lines,
        Side::Attacker,
        CombatTactic::Default,
        &vec![],
        None,
        &book,
    );
    let search = Search::Band {
        who: 0,
        sector: Sector { wing: Wing::Covered, from: 0, to: 1, of: 1 },
        target: Target { sum: 15, count: 2, offset: 0 },
        bounded: true,
        slot: Slot::Even { index: 0, of: 1 },
    };
    assert_eq!(asked, Err(DeployQuestion { search, line: Vec::new() }));
    assert_eq!(field, before);
}

#[test]
fn the_best_row_wins_and_crowding_counts() {
    let (g, _, p_zone) = board();
    let e_zone = vec![HexCoord::new(7, 1), HexCoord::new(7, 2), HexCoord::new(7, 5)];
    let units: Vec<Battalion> =
        (1..=2).map(|i| unit(i, UnitType::Infantry, Side::Attacker, 1)).collect();
    let names = division_names(&units);
    let lines: Vec<Vec<HexCoord>> = vec![Vec::new(); 3];
    let row = |open: i64, crowded: i64| SiteRow { inside: true, near: 0, open, crowded };
    let mut book = DeployBook { tables: Vec::new() };
    let mut field: Vec<BattalionUnit> = units.iter().map(|u| u.battalion_unit(&names)).collect();
    loop {
        let r = deploy_side(
            &g.map(),
            &mut field,
            &e_zone,
            &p_zone,
            &lines,
            Side::Attacker,
            CombatTactic::MassCharge,
            &vec![],
            None,
            &book,
        );
        match r {
            Ok(()) => break,
            Err(q) => book.tables.push(SiteTable {
                search: q.search,
                rows: vec![row(9, 0), row(8, 1), row(5, 2)],
            }),
        }
    }
    assert_eq!(field[0].position, HexCoord::new(7, 1), "the best of all");
    assert_eq!(field[1].position, HexCoord::new(7, 5), "next to the first counts less");
}

#[test]
fn without_a_zone_nobody_is_deployed() {
    let (g, e_zone, p_zone) = board();
    let mut units = vec![unit(1, UnitType::Infantry, Side::Defender, 1)];
    let names = division_names(&units);
    let before = units[0].battalion_unit(&names);
    let book = DeployBook { tables: Vec::new() };
    for (own, enemy) in [(vec![], p_zone), (e_zone, vec![])] {
        let mut field = vec![before];
        let lines = vec![Vec::new(); own.len()];
        let r = deploy_side(
            &g.map(),
            &mut field,
            &own,
            &enemy,
            &lines,
            Side::Defender,
            CombatTactic::Default,
            &vec![],
            None,
            &book,
        );
        assert_eq!(r, Ok(()));
        assert_eq!(field, vec![before]);
    }
    units.clear();
}

#[test]
fn under_every_card_a_deployment_is_in_order() {
    let (mut g, e_zone, p_zone) = board();
    for r in 2..6 {
        g.set_terrain(HexCoord::new(11, r), Terrain::Urban);
        g.cell_mut(HexCoord::new(9, r)).unwrap().elevation = 1;
    }
    let pre: HashSet<(i32, i32)> = [(7, 3), (10, 3)].into_iter().collect();
    for side in [Side::Attacker, Side::Defender] {
        for card in [
            CombatTactic::Blitz,
            CombatTactic::Encirclement,
            CombatTactic::ElasticDefense,
            CombatTactic::TacticalWithdrawal,
            CombatTactic::UrbanDefense,
            CombatTactic::RiverDefense,
            CombatTactic::Ambush,
            CombatTactic::Default,
        ] {
            let mut units: Vec<Battalion> = (1..=9)
                .map(|i| {
                    let ty = match i {
                        3 => UnitType::MediumArmor,
                        7 => UnitType::ArtilleryBrigade,
                        8 => UnitType::AntiAirBrigade,
                        9 => UnitType::Headquarters,
                        _ => UnitType::Infantry,
                    };
                    let mut u = unit(i, ty, side, if i == 7 { 9 } else { 1 });
                    u.division = if i % 2 == 0 { "A".to_string() } else { "B".to_string() };
                    u.position = offboard();
                    u
                })
                .collect();
            let mut other = unit(20, UnitType::Infantry, Side::Attacker, 1);
            if side == Side::Attacker {
                other.side = Side::Defender;
            }
            units.push(other);
            ai_deploy(&g, &mut units, &e_zone, &p_zone, side, card, &pre, None);
            let placed: HashSet<HexCoord> = units[..9].iter().map(|u| u.position).collect();
            assert_eq!(placed.len(), 9, "{card:?}: no two on one hex");
            for h in &placed {
                assert!(e_zone.contains(h) && !pre.contains(&(h.q, h.r)), "{card:?}: {h:?}");
            }
            assert_eq!(units[9].position, HexCoord::new(0, 0), "the other side stays");
        }
    }
}

#[test]
fn armor_takes_the_deepest_echelon_of_a_reserve_card() {
    let (g, e_zone, p_zone) = board();
    let mut units: Vec<Battalion> = (1..=4)
        .map(|i| {
            let ty = if i == 1 { UnitType::MediumArmor } else { UnitType::Infantry };
            let mut u = unit(i, ty, Side::Defender, 1);
            u.division = "D".to_string();
            u
        })
        .collect();
    ai_deploy(
        &g,
        &mut units,
        &e_zone,
        &p_zone,
        Side::Defender,
        CombatTactic::Counterattack,
        &HashSet::new(),
        None,
    );
    let front = units[1].position.q;
    assert!(units[0].position.q > front, "the armour waits behind: {:?}", units[0].position);
}

#[test]
fn nobody_that_does_not_fight_is_deployed() {
    let (g, e_zone, p_zone) = board();
    let mut units: Vec<Battalion> = (1..=5)
        .map(|i| {
            let ty = match i {
                3 => UnitType::ArtilleryBrigade,
                4 | 5 => UnitType::Headquarters,
                _ => UnitType::Infantry,
            };
            let mut u = unit(i, ty, Side::Defender, if i == 3 { 9 } else { 1 });
            u.division = "D".to_string();
            u.position = offboard();
            u
        })
        .collect();
    for i in [1, 2, 3] {
        units[i].org = 0.0;
    }
    ai_deploy(
        &g,
        &mut units,
        &e_zone,
        &p_zone,
        Side::Defender,
        CombatTactic::Default,
        &HashSet::new(),
        None,
    );
    for i in [1, 2, 3] {
        assert_eq!(units[i].position, offboard(), "{:?} stays", units[i].unit_type);
    }
    assert!(e_zone.contains(&units[0].position) && e_zone.contains(&units[4].position));
}

#[test]
fn whoever_goes_by_the_id_of_a_headquarters_is_placed_as_one() {
    let (g, e_zone, p_zone) = board();
    let placed = |hq_id: usize| {
        let mut units = vec![
            unit(7, UnitType::Infantry, Side::Defender, 1),
            unit(hq_id, UnitType::Headquarters, Side::Defender, 1),
        ];
        for u in units.iter_mut() {
            u.division = "D".to_string();
            u.position = offboard();
        }
        ai_deploy(
            &g,
            &mut units,
            &e_zone,
            &p_zone,
            Side::Defender,
            CombatTactic::Default,
            &HashSet::new(),
            None,
        );
        (units[0].position, units[1].position)
    };
    let (line, rear) = placed(8);
    assert!(e_zone.contains(&line) && e_zone.contains(&rear) && line != rear);
    assert_eq!(placed(7), (rear, offboard()));
}
