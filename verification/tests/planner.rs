//! A whole turn of planning on concrete battles.
//!
//! The battles are fought over a small field model: it finds paths, reckons
//! hours and expected damage and draws lots, and so answers what the planner
//! asks until the plan is complete.
use std::collections::{BTreeMap, BinaryHeap, HashSet};
use tactical::action::AiAction;
use tactical::ai::{Outlook, TacticalAi};
use tactical::assault::{assault_pool, imagined_pool};
use tactical::formation::river_between;
use tactical::grid::{Cell, HexGrid};
use tactical::hex::HexCoord;
use tactical::role::{select_objective, StrategicObjective};
use tactical::tactic::CombatTactic;
use tactical::turn::{
    Book, DivOrderTarget, Fact, FlagZone, PlannerParams, Query, Route, Spot, StepScore,
};
use tactical::unit::{BattalionUnit, Side, UnitKind, UnitState};

// The ground.

#[derive(Debug, Clone, Copy, PartialEq, Eq)]
enum Terrain {
    Plains,
    Forest,
    River,
    Urban,
    Water,
}

#[derive(Debug, Clone, Copy)]
struct Land {
    terrain: Terrain,
    elevation: i64,
    is_passable: bool,
}

struct Ground {
    width: i32,
    height: i32,
    lands: Vec<Land>,
}

/// The share of a hit that the ground takes off; negative where it exposes.
fn cover_percent(t: Terrain) -> f32 {
    match t {
        Terrain::Forest => 0.15,
        Terrain::Urban => 0.5,
        Terrain::River => -0.5,
        Terrain::Plains | Terrain::Water => 0.0,
    }
}

fn terrain_hours(t: Terrain) -> f32 {
    match t {
        Terrain::Plains => 1.0,
        Terrain::Forest => 1.5,
        Terrain::Urban => 1.25,
        Terrain::River => 3.0,
        Terrain::Water => 9.0,
    }
}

impl Ground {
    fn at(&self, h: HexCoord) -> Option<usize> {
        let inside = 0 <= h.q && h.q < self.width && 0 <= h.r && h.r < self.height;
        inside.then_some((h.r * self.width + h.q) as usize)
    }

    fn cell(&self, h: HexCoord) -> Option<Land> {
        self.at(h).map(|i| self.lands[i])
    }

    fn cell_mut(&mut self, h: HexCoord) -> Option<&mut Land> {
        self.at(h).map(|i| &mut self.lands[i])
    }

    fn set_terrain(&mut self, h: HexCoord, t: Terrain) {
        let land = self.cell_mut(h).unwrap();
        land.terrain = t;
        if t == Terrain::River {
            land.elevation = -1;
        }
    }

    fn map(&self) -> HexGrid {
        let fill = Cell {
            passable: true,
            out_of_bounds: false,
            river: false,
            urban: false,
            elevation: 0,
            cover: 0,
        };
        let mut g = HexGrid::new(self.width as usize, self.height as usize, fill);
        for q in 0..self.width {
            for r in 0..self.height {
                let h = HexCoord::new(q, r);
                let land = self.cell(h).unwrap();
                g = g.with_cell(
                    h,
                    Cell {
                        passable: land.is_passable,
                        out_of_bounds: false,
                        river: land.terrain == Terrain::River,
                        urban: land.terrain == Terrain::Urban,
                        elevation: land.elevation,
                        cover: key(cover_percent(land.terrain)),
                    },
                );
            }
        }
        g
    }
}

fn grid(w: i32, h: i32) -> Ground {
    let land = Land { terrain: Terrain::Plains, elevation: 0, is_passable: true };
    Ground { width: w, height: h, lands: vec![land; (w * h) as usize] }
}

/// An integer that orders as the quantity does.
fn key(x: f32) -> i64 {
    if x == 0.0 {
        0
    } else if x > 0.0 {
        x.to_bits() as i64
    } else {
        -((-x).to_bits() as i64)
    }
}

fn neighbors(h: HexCoord) -> Vec<HexCoord> {
    [(1, 0), (1, -1), (0, -1), (-1, 0), (-1, 1), (0, 1)]
        .iter()
        .map(|(q, r)| HexCoord::new(h.q + q, h.r + r))
        .collect()
}

// The battalions.

#[derive(Debug, Clone, Copy, PartialEq, Eq)]
enum UnitType {
    Infantry,
    MediumArmor,
    Recon,
    ArtilleryBrigade,
    RocketArtillery,
    AntiTankBrigade,
    Headquarters,
    SupportCompany,
}

#[derive(Debug, Clone)]
struct MoveOrder {
    path: Vec<HexCoord>,
    hours: f32,
}

#[derive(Debug, Clone)]
struct Battalion {
    id: usize,
    unit_type: UnitType,
    side: Side,
    position: HexCoord,
    state: UnitState,
    division: String,
    soft_attack: f32,
    hard_attack: f32,
    defense: f32,
    breakthrough: f32,
    max_org: f32,
    org: f32,
    max_strength: f32,
    strength: f32,
    attack_range: i64,
    acted: bool,
    is_emplaced: bool,
    manual_override: bool,
    fire_cooldown: i64,
    move_order: Option<MoveOrder>,
}

impl Battalion {
    fn is_rocket(&self) -> bool {
        self.unit_type == UnitType::RocketArtillery
    }

    fn is_gun(&self) -> bool {
        self.unit_type == UnitType::AntiTankBrigade
    }

    fn is_tube(&self) -> bool {
        self.unit_type == UnitType::ArtilleryBrigade
    }

    fn requires_emplacement(&self) -> bool {
        self.is_tube() || self.is_gun()
    }

    fn is_combat_effective(&self) -> bool {
        self.state == UnitState::Active && self.org > 0.0 && self.strength > 0.0
    }

    fn can_assault(&self) -> bool {
        !self.acted
            && !self.is_emplaced
            && !self.is_rocket()
            && self.unit_type != UnitType::Headquarters
    }

    fn org_ratio(&self) -> f32 {
        self.org / self.max_org
    }

    fn hardness(&self) -> f32 {
        if self.unit_type == UnitType::MediumArmor {
            0.9
        } else {
            0.0
        }
    }

    fn battalion_unit(&self) -> BattalionUnit {
        let ranged = self.attack_range > 1;
        BattalionUnit {
            id: self.id,
            division: if self.division.is_empty() { 0 } else { 1 },
            side: self.side,
            position: self.position,
            state: self.state,
            fit: self.org > 0.0 && self.strength > 0.0,
            present: self.strength > 0.0,
            kind: UnitKind {
                hq: self.unit_type == UnitType::Headquarters,
                armor: self.unit_type == UnitType::MediumArmor,
                recon: self.unit_type == UnitType::Recon,
                support_company: self.unit_type == UnitType::SupportCompany,
                motorized: false,
                indirect_artillery: self.is_tube() || self.is_rocket(),
                direct_gun: self.is_gun(),
                rocket: self.is_rocket(),
                anti_tank: self.is_gun(),
                anti_air: false,
                gun: self.is_gun(),
                towed: self.requires_emplacement(),
            },
            attack_range: self.attack_range,
            min_attack_range: 1,
            org: self.org.to_bits(),
            org_ratio: self.org_ratio().to_bits(),
            strength: self.strength.to_bits(),
            org_cents: (self.org * 100.0) as i64,
            strength_cents: (self.strength * 100.0) as i64,
            acted: self.acted,
            shocked: false,
            is_holding: false,
            is_emplaced: self.is_emplaced,
            manual_override: self.manual_override,
            undeployed: false,
            can_assault: self.can_assault(),
            can_attack_order: !self.acted,
            fire_support: ranged && !self.acted && (!self.requires_emplacement() || self.is_emplaced),
            fire_cooldown: self.fire_cooldown,
            oob_turns: 0,
            move_to: self.move_order.as_ref().and_then(|o| o.path.last()).copied(),
        }
    }
}

fn battalion_units(units: &[Battalion]) -> Vec<BattalionUnit> {
    units.iter().map(|u| u.battalion_unit()).collect()
}

/// A battalion in full fighting order.
fn unit(id: usize, ty: UnitType, side: Side, q: i32, r: i32) -> Battalion {
    Battalion {
        id,
        unit_type: ty,
        side,
        position: HexCoord::new(q, r),
        state: UnitState::Active,
        division: String::new(),
        soft_attack: 25.0,
        hard_attack: 12.0,
        defense: 40.0,
        breakthrough: 0.0,
        max_org: 100.0,
        org: 100.0,
        max_strength: 100.0,
        strength: 100.0,
        attack_range: match ty {
            UnitType::ArtilleryBrigade => 9,
            UnitType::RocketArtillery => 8,
            UnitType::AntiTankBrigade | UnitType::MediumArmor => 2,
            _ => 1,
        },
        acted: false,
        is_emplaced: false,
        manual_override: false,
        fire_cooldown: 0,
        move_order: None,
    }
}

fn set_org_pct(u: &mut Battalion, pct: f32) {
    u.org = u.max_org * pct;
}

// Paths and hours.

fn held(all: &[Battalion], id: usize, h: HexCoord) -> bool {
    all.iter().any(|u| u.id != id && u.is_combat_effective() && u.position == h)
}

fn step_hours(g: &Ground, h: HexCoord) -> Option<f32> {
    let land = g.cell(h)?;
    land.is_passable.then_some(terrain_hours(land.terrain))
}

/// The cheapest path past all held hexes but the goal itself.
fn find_path(g: &Ground, u: &Battalion, all: &[Battalion], dest: HexCoord) -> Option<(Vec<HexCoord>, f32)> {
    step_hours(g, dest)?;
    let mut best: BTreeMap<(i32, i32), (i64, HexCoord)> = BTreeMap::new();
    let mut open: BinaryHeap<(i64, i64, i32, i32)> = BinaryHeap::new();
    best.insert((u.position.q, u.position.r), (0, u.position));
    open.push((-u.position.distance(dest), 0, u.position.q, u.position.r));
    while let Some((_, neg, q, r)) = open.pop() {
        let at = HexCoord::new(q, r);
        let spent = -neg;
        if best[&(q, r)].0 < spent {
            continue;
        }
        if at == dest {
            let mut path: Vec<HexCoord> = Vec::new();
            let mut h = dest;
            while h != u.position {
                path.push(h);
                h = best[&(h.q, h.r)].1;
            }
            path.reverse();
            return Some((path, spent as f32 / 100.0));
        }
        for n in neighbors(at) {
            let Some(hours) = step_hours(g, n) else { continue };
            if n != dest && held(all, u.id, n) {
                continue;
            }
            let cost = spent + (hours * 100.0) as i64;
            let known = best.get(&(n.q, n.r)).map(|b| b.0);
            if known.is_none() || cost < known.unwrap() {
                best.insert((n.q, n.r), (cost, at));
                open.push((-(cost + 100 * n.distance(dest)), -cost, n.q, n.r));
            }
        }
    }
    None
}

// Expected damage.

fn firepower(a: &Battalion, e: &Battalion) -> f32 {
    a.soft_attack * (1.0 - e.hardness()) + a.hard_attack * e.hardness()
}

fn guns(a: &Battalion) -> f32 {
    a.strength / a.max_strength
}

fn damage(power: f32, shield: f32) -> f32 {
    power * (0.1 + 0.3 * power / (power + shield).max(1e-6))
}

fn volley(g: &Ground, pool: &[&Battalion], e: &Battalion) -> f32 {
    let fire: f32 = pool.iter().map(|a| firepower(a, e) * guns(a)).sum();
    let count: f32 = pool.iter().map(|a| guns(a)).sum();
    let cover = g.cell(e.position).map(|c| cover_percent(c.terrain)).unwrap_or(0.0);
    damage(fire * count, e.defense) * (1.0 - cover)
}

fn counter(g: &Ground, e: &Battalion, a: &Battalion) -> f32 {
    let cover = g.cell(a.position).map(|c| cover_percent(c.terrain)).unwrap_or(0.0);
    damage(firepower(e, a) * guns(e) * guns(e), a.breakthrough) * (1.0 - cover)
}

fn mission(g: &Ground, a: &Battalion, e: &Battalion) -> f32 {
    let land = g.cell(e.position).unwrap();
    let lift = |h: HexCoord| g.cell(h).map(|c| c.elevation).unwrap_or(0);
    let shoulder = neighbors(e.position)
        .into_iter()
        .filter(|n| n.distance(a.position) < e.position.distance(a.position))
        .any(|n| lift(n) > land.elevation);
    let crest = if shoulder { 0.5 } else { 1.0 };
    damage(firepower(a, e) * guns(a), e.defense) * (1.0 - cover_percent(land.terrain)) * crest
}

const AREA_CENTER_SHARE: f32 = 0.4;
const ORG_CAP_RATIO: f32 = 0.4;

// The planner and what it is told.

struct Planner {
    tactic: CombatTactic,
    ai: TacticalAi,
    seed: u64,
    /// All that was asked so far.
    asked: Vec<Query>,
}

#[derive(Debug, Clone)]
struct Flag {
    anchor: HexCoord,
    zone: Vec<HexCoord>,
    progress: i32,
}

struct FlagState {
    flags: Vec<Flag>,
}

/// All that answers are found in.
struct View<'a> {
    ground: &'a Ground,
    own: &'a [Battalion],
    enemy: Vec<Battalion>,
    passive: &'a [Battalion],
    all: Vec<Battalion>,
    flags: Vec<Flag>,
}

fn off_centre(zone: &[HexCoord], h: HexCoord) -> i64 {
    let n = zone.len() as f32;
    let cq = zone.iter().map(|z| z.q as i64).sum::<i64>() as f32 / n;
    let cr = zone.iter().map(|z| z.r as i64).sum::<i64>() as f32 / n;
    let (dq, dr) = (h.q as f32 - cq, h.r as f32 - cr);
    key(dq * dq + dr * dr)
}

fn spots(zone: &[HexCoord], centre_of: &[HexCoord]) -> Vec<Spot> {
    zone.iter().map(|h| Spot { hex: *h, off_centre: off_centre(centre_of, *h) }).collect()
}

fn flag_zones(flags: &[Flag]) -> Vec<FlagZone> {
    let every: Vec<HexCoord> = flags.iter().flat_map(|f| f.zone.iter().copied()).collect();
    flags
        .iter()
        .map(|f| FlagZone { zone: spots(&f.zone, &every), anchor: f.anchor, progress: f.progress })
        .collect()
}

fn force_power(units: &[Battalion]) -> f32 {
    units.iter().filter(|u| u.is_combat_effective()).map(|u| u.strength * u.org_ratio()).sum()
}

fn outmatched(own: &[Battalion], enemy: &[Battalion]) -> bool {
    let foe = force_power(enemy);
    foe > 0.0 && force_power(own) * 3.0 < foe
}

fn outlook(own: &[Battalion], enemy: &[Battalion]) -> Outlook {
    let centre = HexCoord::new(0, 0);
    let ring: Vec<HexCoord> =
        centre.hexes_in_range(2).into_iter().filter(|h| h.distance(centre) == 2).collect();
    Outlook { outmatched: outmatched(own, enemy), second_ring: ring }
}

fn centroid(units: &[Battalion]) -> Option<(f32, f32)> {
    let live: Vec<&Battalion> = units.iter().filter(|u| u.is_combat_effective()).collect();
    let n = live.len() as f32;
    let q: f32 = live.iter().map(|u| u.position.q as f32).sum();
    let r: f32 = live.iter().map(|u| u.position.r as f32).sum();
    (!live.is_empty()).then(|| (q / n, r / n))
}

fn flank_waypoint(v: &View, left: bool) -> Option<HexCoord> {
    let (eq, er) = centroid(&v.enemy)?;
    let (oq, or) = centroid(v.own)?;
    let (dq, dr) = (eq - oq, er - or);
    let (pq, pr) = if left { (-dr, dq) } else { (dr, -dq) };
    let len = (pq * pq + pr * pr).sqrt();
    let (pq, pr) = if len < 1e-3 { (1.0, 0.0) } else { (pq / len, pr / len) };
    let (tq, tr) = (eq + pq * 2.0, er + pr * 2.0);
    let anchor = HexCoord::new(tq.round() as i32, tr.round() as i32);
    let off = |h: &HexCoord| (h.q as f32 - tq).powi(2) + (h.r as f32 - tr).powi(2);
    anchor
        .hexes_in_range(3)
        .into_iter()
        .filter(|h| step_hours(v.ground, *h).is_some())
        .min_by(|a, b| off(a).total_cmp(&off(b)).then(a.q.cmp(&b.q)).then(a.r.cmp(&b.r)))
}

impl View<'_> {
    fn friends(&self) -> impl Iterator<Item = &Battalion> {
        self.own.iter().chain(self.passive.iter())
    }

    fn step_score(&self, h: HexCoord, score: StepScore, distance: i64, beyond: i64) -> Option<(f32, f32)> {
        let hours = step_hours(self.ground, h)?;
        let land = self.ground.cell(h)?;
        let cover = cover_percent(land.terrain);
        let ford = if land.terrain == Terrain::River { 100.0 } else { 0.0 };
        let d = distance as f32;
        let s = match score {
            StepScore::Withdraw => -d * 100.0 + ford + hours,
            StepScore::Shadow => -d * 100.0 + beyond as f32 * 50.0 + hours,
            StepScore::Evade => -d * 100.0 + hours,
            StepScore::Close => d * 100.0 + hours,
            StepScore::FallBack => -d * 100.0 + hours - cover * 30.0,
            StepScore::Cover => -cover * 100.0 + hours,
        };
        Some((s, hours))
    }

    fn mission_worth(&self, who: usize, foe: usize, full: bool) -> f32 {
        let worth = mission(self.ground, &self.own[who], &self.enemy[foe]);
        if full {
            worth
        } else {
            worth * AREA_CENTER_SHARE
        }
    }

    fn fact(&self, q: Query, seed: &mut u64) -> Fact {
        let number = |x: f32| Fact::Number(key(x));
        let yes = |b: bool| if b { Fact::Yes } else { Fact::No };
        match q {
            Query::Route { .. } => unreachable!(),
            Query::Step { hex, score, distance, beyond, .. } => {
                match self.step_score(hex, score, distance, beyond) {
                    Some((s, hours)) => Fact::Pair(key(s), key(hours)),
                    None => Fact::No,
                }
            }
            Query::Trade { who, foe } => {
                let (u, e) = (&self.own[who], &self.enemy[foe]);
                let mut pool: Vec<&Battalion> = vec![u];
                pool.extend(self.friends().filter(|o| {
                    o.id != u.id
                        && o.is_combat_effective()
                        && o.can_assault()
                        && o.position.distance(e.position) == 1
                }));
                let dealt = volley(self.ground, &pool, e);
                let taken = counter(self.ground, e, u);
                yes(dealt.min(e.max_org * ORG_CAP_RATIO) >= e.org || taken <= dealt * 1.5)
            }
            Query::Volley { foe } => {
                let e = &self.enemy[foe];
                let pool: Vec<&Battalion> = self
                    .friends()
                    .filter(|o| {
                        o.is_combat_effective()
                            && o.can_assault()
                            && o.position.distance(e.position) == 1
                    })
                    .collect();
                number(if pool.is_empty() { 0.0 } else { volley(self.ground, &pool, e) })
            }
            Query::Barrage { who, foe, full } => number(self.mission_worth(who, foe, full)),
            Query::Even { who, foe, best, full } => {
                let worth = |j: usize| self.mission_worth(who, j, full);
                yes((worth(foe) - worth(best)).abs() < 1e-3)
            }
            Query::Draw { below, .. } => {
                *seed ^= *seed << 13;
                *seed ^= *seed >> 7;
                *seed ^= *seed << 17;
                Fact::Number((*seed % below as u64) as i64)
            }
            Query::Waypoint { left } => match flank_waypoint(self, left) {
                Some(h) => Fact::Hex(h),
                None => Fact::No,
            },
            Query::Shielded { from, threat } => {
                let (dq, dr) = ((threat.q - from.q) as f32, (threat.r - from.r) as f32);
                let steps = dq.abs().max(dr.abs()).ceil() as i32;
                let line: Vec<HexCoord> = (1..steps)
                    .map(|i| {
                        let t = i as f32 / steps as f32;
                        HexCoord::new(
                            (from.q as f32 + dq * t).round() as i32,
                            (from.r as f32 + dr * t).round() as i32,
                        )
                    })
                    .collect();
                yes(river_between(&self.ground.map(), &line))
            }
            Query::Share { pool, progress, total } => {
                let share = (pool as f32 * (progress as f32 / total as f32)).ceil().max(1.0);
                Fact::Number(share as i64)
            }
            Query::NearestHex { flag, who } => {
                let from = self.own[who].position;
                match self.flags[flag].zone.iter().min_by_key(|z| from.distance(**z)) {
                    Some(h) => Fact::Hex(*h),
                    None => Fact::No,
                }
            }
            Query::OffCentre { hq, member } => {
                let division = &self.own[hq].division;
                let members: Vec<HexCoord> = self
                    .own
                    .iter()
                    .filter(|u| {
                        u.unit_type != UnitType::Headquarters
                            && u.division == *division
                            && u.is_combat_effective()
                    })
                    .map(|u| u.position)
                    .collect();
                Fact::Number(off_centre(&members, self.own[member].position))
            }
        }
    }

    fn write(&self, book: &mut Book, q: Query, seed: &mut u64) {
        if let Query::Route { who, dest } = q {
            let (path, cost) =
                find_path(self.ground, &self.own[who], &self.all, dest).unwrap_or((Vec::new(), 0.0));
            assert!(!book.routes.iter().any(|r| r.who == who && r.dest == dest));
            book.routes.push(Route { who, dest, path, cost: key(cost) });
        } else {
            assert!(!book.facts.iter().any(|f| f.0 == q), "asked twice: {q:?}");
            let fact = self.fact(q, seed);
            book.facts.push((q, fact));
        }
    }
}

impl Planner {
    fn new(side: Side, tactic: CombatTactic, seed: u64) -> Planner {
        let params =
            PlannerParams { flag_progress_cap: 12, div_sensor_radius: 10, hq_aura_radius: 3 };
        let ai = TacticalAi::new(side, tactic, params);
        Planner { tactic: ai.tactic, ai, seed, asked: Vec::new() }
    }

    fn plan_turn(&mut self, g: &Ground, own: &[Battalion], enemy: &[Battalion]) -> Vec<AiAction> {
        let (units, foes) = (battalion_units(own), battalion_units(enemy));
        let view = self.view(g, own, enemy, &[], &[]);
        let (ai, map, out) = (self.ai, g.map(), outlook(own, enemy));
        self.settle(&view, |book| ai.plan_turn(&map, &units, &foes, &out, book))
    }

    fn plan_turn_toward(
        &mut self,
        g: &Ground,
        own: &[Battalion],
        enemy: &[Battalion],
        objective: Option<HexCoord>,
    ) -> Vec<AiAction> {
        let (units, foes) = (battalion_units(own), battalion_units(enemy));
        let view = self.view(g, own, enemy, &[], &[]);
        let (ai, map, out) = (self.ai, g.map(), outlook(own, enemy));
        self.settle(&view, |book| {
            ai.plan_turn_toward(&map, &units, &foes, objective, &out, book)
        })
    }

    fn plan_turn_zone(
        &mut self,
        g: &Ground,
        own: &[Battalion],
        enemy: &[Battalion],
        intel: Option<&[HexCoord]>,
    ) -> Vec<AiAction> {
        let (units, foes) = (battalion_units(own), battalion_units(enemy));
        let zone = intel.map(|z| spots(z, z));
        let view = self.view(g, own, enemy, &[], &[]);
        let (ai, map, out) = (self.ai, g.map(), outlook(own, enemy));
        self.settle(&view, |book| {
            ai.plan_turn_zone(&map, &units, &foes, zone.as_ref(), &out, book)
        })
    }

    fn plan_turn_flags(
        &mut self,
        g: &Ground,
        own: &[Battalion],
        enemy: &[Battalion],
        intel: Option<&[HexCoord]>,
        flags: Option<&FlagState>,
        passive: Option<&[Battalion]>,
    ) -> Vec<AiAction> {
        let (units, foes) = (battalion_units(own), battalion_units(enemy));
        let zone = intel.map(|z| spots(z, z));
        let marks = flags.map(|f| flag_zones(&f.flags));
        let others = passive.map(|p| battalion_units(p));
        let known = flags.map(|f| f.flags.clone()).unwrap_or_default();
        let view = self.view(g, own, enemy, passive.unwrap_or(&[]), &known);
        let side: Vec<Battalion> = view.friends().cloned().collect();
        let (ai, map, out) = (self.ai, g.map(), outlook(&side, enemy));
        self.settle(&view, |book| {
            ai.plan_turn_flags(
                &map,
                &units,
                &foes,
                zone.as_ref(),
                marks.as_ref(),
                others.as_ref(),
                &out,
                book,
            )
        })
    }

    fn plan_turn_full(
        &mut self,
        g: &Ground,
        own: &[Battalion],
        enemy: &[Battalion],
        intel: Option<&[HexCoord]>,
        flags: Option<&FlagState>,
        passive: Option<&[Battalion]>,
        physical: Option<&[Battalion]>,
    ) -> Vec<AiAction> {
        let (units, foes) = (battalion_units(own), battalion_units(enemy));
        let zone = intel.map(|z| spots(z, z));
        let marks = flags.map(|f| flag_zones(&f.flags));
        let others = passive.map(|p| battalion_units(p));
        let real = physical.map(|p| battalion_units(p));
        let known = flags.map(|f| f.flags.clone()).unwrap_or_default();
        let view = self.view(g, own, enemy, passive.unwrap_or(&[]), &known);
        let side: Vec<Battalion> = view.friends().cloned().collect();
        let (ai, map, out) = (self.ai, g.map(), outlook(&side, enemy));
        self.settle(&view, |book| {
            ai.plan_turn_full(
                &map,
                &units,
                &foes,
                zone.as_ref(),
                marks.as_ref(),
                others.as_ref(),
                real.as_ref(),
                &out,
                book,
            )
        })
    }

    fn plan_turn_div_order(
        &mut self,
        g: &Ground,
        own: &[Battalion],
        enemy: &[Battalion],
        intel: Option<&[HexCoord]>,
        flags: Option<&FlagState>,
        order: Option<DivOrderTarget>,
    ) -> Vec<AiAction> {
        let (units, foes) = (battalion_units(own), battalion_units(enemy));
        let zone = intel.map(|z| spots(z, z));
        let marks = flags.map(|f| flag_zones(&f.flags));
        let known = flags.map(|f| f.flags.clone()).unwrap_or_default();
        let mut view = self.view(g, own, enemy, &[], &known);
        view.enemy.retain(|e| own.iter().any(|u| u.position.distance(e.position) <= 10));
        let (ai, map, out) = (self.ai, g.map(), outlook(own, enemy));
        self.settle(&view, |book| {
            ai.plan_turn_div_order(
                &map,
                &units,
                &foes,
                zone.as_ref(),
                marks.as_ref(),
                order,
                &out,
                book,
            )
        })
    }

    fn select_objective(&self, own: &[Battalion], enemy: &[Battalion]) -> StrategicObjective {
        select_objective(self.tactic, outmatched(own, enemy))
    }

    fn view<'a>(
        &self,
        ground: &'a Ground,
        own: &'a [Battalion],
        enemy: &[Battalion],
        passive: &'a [Battalion],
        flags: &[Flag],
    ) -> View<'a> {
        let mut all: Vec<Battalion> = own.to_vec();
        all.extend(enemy.iter().cloned());
        all.extend(passive.iter().cloned());
        View { ground, own, enemy: enemy.to_vec(), passive, all, flags: flags.to_vec() }
    }

    /// Answers what is asked until the plan is complete.
    fn settle(
        &mut self,
        view: &View,
        plan: impl Fn(&Book) -> Result<Vec<AiAction>, Query>,
    ) -> Vec<AiAction> {
        let mut book = Book { routes: Vec::new(), facts: Vec::new() };
        loop {
            match plan(&book) {
                Ok(actions) => return actions,
                Err(q) => {
                    self.asked.push(q);
                    view.write(&mut book, q, &mut self.seed);
                }
            }
        }
    }
}

// Reading a plan.

fn dist_to_nearest(h: HexCoord, units: &[Battalion]) -> i64 {
    units.iter().map(|u| h.distance(u.position)).min().unwrap()
}

fn actor(a: &AiAction) -> Option<usize> {
    match a {
        AiAction::MoveUnit { unit_id, .. }
        | AiAction::Hold { unit_id }
        | AiAction::Emplace { unit_id }
        | AiAction::Limber { unit_id }
        | AiAction::Retreat { unit_id } => Some(*unit_id),
        AiAction::Assault { attacker_id, .. } | AiAction::FireSupport { attacker_id, .. } => {
            Some(*attacker_id)
        }
        AiAction::EndTurn => None,
    }
}

fn action_for(actions: &[AiAction], unit_id: usize) -> &AiAction {
    actions
        .iter()
        .find(|a| actor(a) == Some(unit_id))
        .unwrap_or_else(|| panic!("no action for unit {unit_id}"))
}

fn move_dest(action: &AiAction) -> HexCoord {
    match action {
        AiAction::MoveUnit { path, .. } => *path.last().unwrap(),
        other => panic!("expected MoveUnit, got {other:?}"),
    }
}

fn hq(id: usize, side: Side, q: i32, r: i32, division: &str) -> Battalion {
    let mut u = unit(id, UnitType::Headquarters, side, q, r);
    u.division = division.to_string();
    u
}

fn flag_state(progress: i32, anchor: HexCoord, zone: &[HexCoord]) -> FlagState {
    FlagState { flags: vec![Flag { anchor, zone: zone.to_vec(), progress }] }
}

#[test]
fn default_attacker_advances_on_objective() {
    let g = grid(14, 14);
    let mut atk = Planner::new(Side::Attacker, CombatTactic::Default, 9);
    assert_eq!(
        atk.tactic,
        CombatTactic::Assault,
        "Default attacker folds onto the plain-advance card"
    );
    let def = Planner::new(Side::Defender, CombatTactic::Default, 9);
    assert_eq!(
        def.tactic,
        CombatTactic::Default,
        "Default defender keeps the hold posture"
    );

    let own = vec![unit(1, UnitType::Infantry, Side::Attacker, 2, 2)];
    let enemy: Vec<Battalion> = vec![];
    let goal_hex = unit(99, UnitType::Infantry, Side::Defender, 11, 11);
    let start_dist = dist_to_nearest(own[0].position, std::slice::from_ref(&goal_hex));
    let actions = atk.plan_turn_toward(&g, &own, &enemy, Some(goal_hex.position));
    match action_for(&actions, 1) {
        AiAction::MoveUnit { path, .. } => {
            let dest = *path.last().unwrap();
            assert!(
                dist_to_nearest(dest, std::slice::from_ref(&goal_hex)) < start_dist,
                "Default attacker must close on the objective, ended at {dest:?}"
            );
        }
        other => panic!("Default attacker must advance on the objective, got {other:?}"),
    }
}

#[test]
fn blitz_advances_armor_toward_enemy() {
    let g = grid(10, 8);
    let mut ai = Planner::new(Side::Attacker, CombatTactic::Blitz, 42);

    let tank = unit(1, UnitType::MediumArmor, Side::Attacker, 3, 1);
    let own = vec![
        tank.clone(),
        unit(2, UnitType::Infantry, Side::Attacker, 1, 1),
    ];
    let enemy = vec![unit(10, UnitType::Infantry, Side::Defender, 3, 5)];

    let actions = ai.plan_turn(&g, &own, &enemy);
    let act = action_for(&actions, 1);
    let dest = move_dest(act);
    assert!(
        dest.distance(enemy[0].position) < tank.position.distance(enemy[0].position),
        "blitz armor must close on the enemy: dest {dest:?}"
    );
}

#[test]
fn elastic_defense_falls_back_when_adjacent() {
    let g = grid(12, 12);
    let mut ai = Planner::new(Side::Defender, CombatTactic::ElasticDefense, 999);

    let own = vec![unit(1, UnitType::Infantry, Side::Defender, 5, 5)];
    let enemy = vec![
        unit(10, UnitType::Infantry, Side::Attacker, 5, 4),
        unit(11, UnitType::Infantry, Side::Attacker, 4, 4),
    ];

    let actions = ai.plan_turn(&g, &own, &enemy);
    let act = action_for(&actions, 1);
    let dest = move_dest(act);
    assert!(
        dist_to_nearest(dest, &enemy) >= 2,
        "elastic defense must disengage to distance at least 2, ended at {dest:?}"
    );
    assert_eq!(
        dest.distance(HexCoord::new(5, 5)),
        1,
        "falls back exactly 1 hex"
    );
}

#[test]
fn artillery_stays_off_the_frontline() {
    let g = grid(12, 12);
    let mut ai = Planner::new(Side::Defender, CombatTactic::Default, 7);

    let arty = unit(1, UnitType::ArtilleryBrigade, Side::Defender, 5, 5);
    let own = vec![arty, unit(2, UnitType::Infantry, Side::Defender, 5, 4)];
    let enemy = vec![unit(10, UnitType::Infantry, Side::Attacker, 5, 6)];

    let actions = ai.plan_turn(&g, &own, &enemy);
    match action_for(&actions, 1) {
        AiAction::MoveUnit { path, .. } => {
            let dest = *path.last().unwrap();
            assert!(
                dist_to_nearest(dest, &enemy) >= 2,
                "artillery must keep standoff at least 2, ended at {dest:?}"
            );
        }
        other => panic!("artillery in contact must reposition, got {other:?}"),
    }
}

#[test]
fn damaged_unit_withdraws() {
    let g = grid(12, 12);
    let mut ai = Planner::new(Side::Defender, CombatTactic::Default, 5);

    let mut battered = unit(1, UnitType::Infantry, Side::Defender, 5, 5);
    set_org_pct(&mut battered, 0.25);
    let own = vec![battered, unit(2, UnitType::Infantry, Side::Defender, 6, 5)];
    let enemy = vec![unit(10, UnitType::Infantry, Side::Attacker, 5, 3)];

    let start_dist = dist_to_nearest(HexCoord::new(5, 5), &enemy);
    let actions = ai.plan_turn(&g, &own, &enemy);
    let act = action_for(&actions, 1);
    match act {
        AiAction::MoveUnit { path, .. } => {
            let dest = *path.last().unwrap();
            assert!(
                dist_to_nearest(dest, &enemy) > start_dist,
                "damaged unit must move away from the enemy, ended at {dest:?}"
            );
        }
        AiAction::Retreat { .. } => {}
        other => panic!("damaged unit must withdraw, got {other:?}"),
    }
}

#[test]
fn outnumbered_three_to_one_refuses_assault() {
    let g = grid(12, 12);
    let mut ai = Planner::new(Side::Attacker, CombatTactic::Default, 3);

    let own = vec![unit(1, UnitType::Infantry, Side::Attacker, 5, 5)];
    let enemy = vec![
        unit(10, UnitType::Infantry, Side::Defender, 5, 4),
        unit(11, UnitType::Infantry, Side::Defender, 4, 4),
        unit(12, UnitType::Infantry, Side::Defender, 4, 5),
    ];

    let actions = ai.plan_turn(&g, &own, &enemy);
    assert!(
        !matches!(action_for(&actions, 1), AiAction::Assault { .. }),
        "3:1 local odds must refuse assault: {actions:?}"
    );
}

#[test]
fn ai_assaults_org_zero_remnant() {
    let g = grid(12, 12);
    let mut ai = Planner::new(Side::Attacker, CombatTactic::Blitz, 7);

    let mut wreck = unit(10, UnitType::Infantry, Side::Defender, 5, 4);
    wreck.org = 0.0;
    wreck.state = UnitState::Withdrawn;
    let own = vec![unit(1, UnitType::Infantry, Side::Attacker, 5, 5)];
    let enemy = vec![wreck];

    let actions = ai.plan_turn(&g, &own, &enemy);
    match action_for(&actions, 1) {
        AiAction::Assault { target_id, .. } => {
            assert_eq!(*target_id, 10, "must clear the org-0 remnant")
        }
        other => panic!("must assault the org-0 remnant, got {other:?}"),
    }
}

#[test]
fn ai_assaults_broken_active_unit_too() {
    let g = grid(12, 12);
    let mut ai = Planner::new(Side::Attacker, CombatTactic::Blitz, 7);

    let mut zombie = unit(10, UnitType::Infantry, Side::Defender, 5, 4);
    zombie.org = 0.0;
    let own = vec![unit(1, UnitType::Infantry, Side::Attacker, 5, 5)];
    let enemy = vec![zombie];

    let actions = ai.plan_turn(&g, &own, &enemy);
    match action_for(&actions, 1) {
        AiAction::Assault { target_id, .. } => {
            assert_eq!(*target_id, 10, "must clear the broken Active unit")
        }
        other => panic!("must assault the org-0 Active unit, got {other:?}"),
    }
}

#[test]
fn acted_units_hold() {
    let g = grid(10, 8);
    let mut ai = Planner::new(Side::Attacker, CombatTactic::Blitz, 1);

    let mut exhausted = unit(1, UnitType::MediumArmor, Side::Attacker, 3, 1);
    exhausted.acted = true;
    let own = vec![exhausted];
    let enemy = vec![unit(10, UnitType::Infantry, Side::Defender, 3, 5)];

    let actions = ai.plan_turn(&g, &own, &enemy);
    assert!(matches!(
        action_for(&actions, 1),
        AiAction::Hold { unit_id: 1 }
    ));
}

#[test]
fn mass_charge_advances_line_one_hex() {
    let g = grid(10, 8);
    let mut ai = Planner::new(Side::Attacker, CombatTactic::MassCharge, 11);

    let own = vec![
        unit(1, UnitType::Infantry, Side::Attacker, 2, 1),
        unit(2, UnitType::Infantry, Side::Attacker, 3, 1),
        unit(3, UnitType::Infantry, Side::Attacker, 4, 1),
    ];
    let enemy = vec![
        unit(10, UnitType::Infantry, Side::Defender, 2, 4),
        unit(11, UnitType::Infantry, Side::Defender, 3, 4),
        unit(12, UnitType::Infantry, Side::Defender, 4, 4),
    ];

    let actions = ai.plan_turn(&g, &own, &enemy);
    for u in &own {
        let act = action_for(&actions, u.id);
        match act {
            AiAction::MoveUnit { path, .. } => {
                assert_eq!(path.len(), 1, "mass charge advances max 1 hex: {path:?}");
                let dest = path[0];
                assert!(
                    dist_to_nearest(dest, &enemy) < dist_to_nearest(u.position, &enemy),
                    "must advance toward the enemy"
                );
            }
            other => panic!("mass charge infantry must advance, got {other:?}"),
        }
    }
}

#[test]
fn guerrilla_never_ends_adjacent() {
    let g = grid(12, 12);
    let mut ai = Planner::new(Side::Attacker, CombatTactic::GuerrillaTactics, 77);

    let own = vec![unit(1, UnitType::Infantry, Side::Attacker, 5, 6)];
    let enemy = vec![unit(10, UnitType::Infantry, Side::Defender, 5, 3)];

    let actions = ai.plan_turn(&g, &own, &enemy);
    match action_for(&actions, 1) {
        AiAction::MoveUnit { path, .. } => {
            let dest = *path.last().unwrap();
            assert!(
                dist_to_nearest(dest, &enemy) >= 2,
                "guerrilla must not end adjacent, ended at {dest:?}"
            );
            assert!(
                dist_to_nearest(dest, &enemy) < 3,
                "guerrilla should still close to striking distance"
            );
        }
        other => panic!("guerrilla should maneuver, got {other:?}"),
    }
}

#[test]
fn overwhelming_fire_concentrates_on_weakest() {
    let g = grid(12, 10);
    let mut ai = Planner::new(Side::Attacker, CombatTactic::OverwhelmingFire, 13);

    let own = vec![
        unit(1, UnitType::ArtilleryBrigade, Side::Attacker, 2, 4),
        unit(2, UnitType::ArtilleryBrigade, Side::Attacker, 6, 4),
        unit(3, UnitType::Infantry, Side::Attacker, 4, 1),
    ];
    let mut weak = unit(10, UnitType::Infantry, Side::Defender, 4, 3);
    set_org_pct(&mut weak, 0.20);
    let strong = unit(11, UnitType::Infantry, Side::Defender, 4, 5);
    let enemy = vec![weak, strong];

    let actions = ai.plan_turn(&g, &own, &enemy);
    for arty_id in [1usize, 2] {
        assert!(
            matches!(action_for(&actions, arty_id), AiAction::Emplace { .. }),
            "battery {arty_id} must emplace before firing: {actions:?}"
        );
    }

    let own_emplaced: Vec<Battalion> = own
        .into_iter()
        .map(|mut u| {
            if u.requires_emplacement() {
                u.is_emplaced = true;
            }
            u
        })
        .collect();
    let actions = ai.plan_turn(&g, &own_emplaced, &enemy);
    for arty_id in [1usize, 2] {
        match action_for(&actions, arty_id) {
            AiAction::FireSupport { target_hex, .. } => {
                assert_eq!(
                    *target_hex,
                    HexCoord::new(4, 3),
                    "battery {arty_id} must concentrate on the weakest hex"
                );
            }
            other => panic!("battery {arty_id} should fire, got {other:?}"),
        }
    }
    assert!(matches!(
        action_for(&actions, 3),
        AiAction::Hold { unit_id: 3 }
    ));
}

#[test]
fn plan_turn_is_deterministic_per_seed() {
    let g = grid(12, 10);
    let own = vec![
        unit(1, UnitType::MediumArmor, Side::Attacker, 3, 2),
        unit(2, UnitType::Infantry, Side::Attacker, 2, 2),
        unit(3, UnitType::Recon, Side::Attacker, 1, 3),
        unit(4, UnitType::ArtilleryBrigade, Side::Attacker, 4, 1),
    ];
    let enemy = vec![
        unit(10, UnitType::Infantry, Side::Defender, 3, 6),
        unit(11, UnitType::Infantry, Side::Defender, 5, 5),
        unit(12, UnitType::Infantry, Side::Defender, 6, 6),
    ];

    let mut a = Planner::new(Side::Attacker, CombatTactic::Blitz, 12345);
    let mut b = Planner::new(Side::Attacker, CombatTactic::Blitz, 12345);
    let ra = a.plan_turn(&g, &own, &enemy);
    let rb = b.plan_turn(&g, &own, &enemy);
    assert_eq!(ra, rb);
}

#[test]
fn end_turn_is_final_action() {
    let g = grid(10, 8);
    let mut ai = Planner::new(Side::Attacker, CombatTactic::Default, 2);
    let own = vec![unit(1, UnitType::Infantry, Side::Attacker, 2, 2)];
    let enemy = vec![unit(10, UnitType::Infantry, Side::Defender, 2, 6)];

    let actions = ai.plan_turn(&g, &own, &enemy);
    assert!(matches!(actions.last(), Some(AiAction::EndTurn)));
    assert_eq!(
        actions
            .iter()
            .filter(|a| matches!(a, AiAction::EndTurn))
            .count(),
        1
    );
}

#[test]
fn artillery_prefers_exposed_crest_over_defiladed_ford() {
    let mut g = grid(12, 12);
    g.set_terrain(HexCoord::new(4, 7), Terrain::River);
    let mut ai = Planner::new(Side::Defender, CombatTactic::Default, 5);

    let mut arty = unit(1, UnitType::ArtilleryBrigade, Side::Defender, 4, 4);
    arty.is_emplaced = true;
    arty.attack_range = 8;
    let own = vec![arty];
    let enemy = vec![
        unit(10, UnitType::Infantry, Side::Attacker, 4, 7),
        unit(11, UnitType::Infantry, Side::Attacker, 7, 4),
    ];

    let actions = ai.plan_turn(&g, &own, &enemy);
    match action_for(&actions, 1) {
        AiAction::FireSupport { target_hex, .. } => {
            assert_eq!(
                *target_hex,
                HexCoord::new(7, 4),
                "the defiladed ford target must NOT outrank the exposed dry one at equal range"
            );
        }
        other => panic!("emplaced battery with in-range targets must fire, got {other:?}"),
    }
}

#[test]
fn visible_enemies_all_precise_damage_decides() {
    let g = grid(12, 12);
    let mut ai = Planner::new(Side::Defender, CombatTactic::Default, 5);

    let mut arty = unit(1, UnitType::ArtilleryBrigade, Side::Defender, 4, 4);
    arty.is_emplaced = true;
    arty.attack_range = 8;
    let mut tough = unit(10, UnitType::Infantry, Side::Attacker, 8, 4);
    tough.defense = 100.0;
    let mut weak = unit(11, UnitType::Infantry, Side::Attacker, 4, 8);
    weak.defense = 10.0;
    let own = vec![arty];
    let enemy = vec![tough, weak];

    let actions = ai.plan_turn(&g, &own, &enemy);
    match action_for(&actions, 1) {
        AiAction::FireSupport { target_hex, .. } => {
            assert_eq!(
                *target_hex,
                HexCoord::new(4, 8),
                "both visible: both precise (full damage): the weaker hex wins on expected damage"
            );
        }
        other => panic!("emplaced battery with in-range targets must fire, got {other:?}"),
    }
}

#[test]
fn lone_visible_enemy_is_engaged_precise() {
    let g = grid(12, 12);
    let mut ai = Planner::new(Side::Defender, CombatTactic::Default, 5);
    let mut arty = unit(1, UnitType::ArtilleryBrigade, Side::Defender, 4, 4);
    arty.is_emplaced = true;
    arty.attack_range = 8;
    let own = vec![arty];
    let enemy = vec![unit(10, UnitType::Infantry, Side::Attacker, 4, 8)];

    let actions = ai.plan_turn(&g, &own, &enemy);
    match action_for(&actions, 1) {
        AiAction::FireSupport { target_hex, .. } => {
            assert_eq!(*target_hex, HexCoord::new(4, 8));
        }
        other => panic!("emplaced battery must fire the visible enemy, got {other:?}"),
    }
}

#[test]
fn rocket_ranking_ignores_area_dilution() {
    let mut g = grid(12, 12);
    g.cell_mut(HexCoord::new(6, 4)).unwrap().elevation = 4;
    let mut ai = Planner::new(Side::Defender, CombatTactic::Default, 5);

    let mut rkt = unit(1, UnitType::RocketArtillery, Side::Defender, 4, 4);
    rkt.is_emplaced = true;
    rkt.attack_range = 8;
    let observer = unit(2, UnitType::Infantry, Side::Defender, 6, 4);
    let mut tough = unit(10, UnitType::Infantry, Side::Attacker, 8, 4);
    tough.defense = 100.0;
    let mut weak = unit(11, UnitType::Infantry, Side::Attacker, 4, 8);
    weak.defense = 10.0;
    let own = vec![rkt, observer];
    let enemy = vec![tough, weak];

    let actions = ai.plan_turn(&g, &own, &enemy);
    match action_for(&actions, 1) {
        AiAction::FireSupport { target_hex, .. } => {
            assert_eq!(
                *target_hex,
                HexCoord::new(4, 8),
                "rockets rank by raw strength, never the area-fire penalty"
            );
        }
        other => panic!("rocket launcher with in-range targets must fire, got {other:?}"),
    }
}

#[test]
fn defender_towed_gun_emplaces_as_fire_base_out_of_range() {
    let g = grid(12, 12);
    let own = |side: Side| vec![unit(1, UnitType::ArtilleryBrigade, side, 2, 2)];
    let enemy = vec![unit(10, UnitType::Infantry, Side::Attacker, 8, 8)];

    let mut def_ai = Planner::new(Side::Defender, CombatTactic::ElasticDefense, 7);
    let actions = def_ai.plan_turn(&g, &own(Side::Defender), &enemy);
    assert!(
        matches!(action_for(&actions, 1), AiAction::Emplace { unit_id: 1 }),
        "defender battery out of range must emplace in place: {actions:?}"
    );

    let mut atk_ai = Planner::new(Side::Attacker, CombatTactic::Blitz, 7);
    let actions = atk_ai.plan_turn(&g, &own(Side::Attacker), &enemy);
    assert!(
        matches!(action_for(&actions, 1), AiAction::MoveUnit { .. }),
        "attacker battery out of range must creep, not squat: {actions:?}"
    );
}

#[test]
fn defender_emplaced_gun_stays_when_enemy_leaves_envelope() {
    let g = grid(12, 12);
    let own = |side: Side| {
        let mut u = unit(1, UnitType::ArtilleryBrigade, side, 2, 2);
        u.is_emplaced = true;
        vec![u]
    };
    let enemy = vec![unit(10, UnitType::Infantry, Side::Attacker, 8, 8)];

    let mut def_ai = Planner::new(Side::Defender, CombatTactic::ElasticDefense, 7);
    let actions = def_ai.plan_turn(&g, &own(Side::Defender), &enemy);
    assert!(
        !matches!(action_for(&actions, 1), AiAction::Limber { .. }),
        "defender fire base must not limber to chase: {actions:?}"
    );

    let mut atk_ai = Planner::new(Side::Attacker, CombatTactic::Blitz, 7);
    let actions = atk_ai.plan_turn(&g, &own(Side::Attacker), &enemy);
    assert!(
        matches!(action_for(&actions, 1), AiAction::Limber { unit_id: 1 }),
        "attacker battery must limber to follow the advance: {actions:?}"
    );
}

#[test]
fn attacker_artillery_blind_fires_intel_goal_when_no_visible_target() {
    let g = grid(20, 12);
    let mut ai = Planner::new(Side::Attacker, CombatTactic::Blitz, 7);
    let mut arty = unit(1, UnitType::ArtilleryBrigade, Side::Attacker, 4, 4);
    arty.is_emplaced = true;
    let own = vec![arty];
    let enemy: Vec<Battalion> = vec![];
    let intel = vec![HexCoord::new(9, 4)];

    let actions = ai.plan_turn_zone(&g, &own, &enemy, Some(&intel));
    match action_for(&actions, 1) {
        AiAction::FireSupport { target_hex, .. } => {
            assert_eq!(
                *target_hex,
                HexCoord::new(9, 4),
                "blind fire must land on the intel goal"
            );
        }
        other => panic!("emplaced battery with intel in range must blind-fire, got {other:?}"),
    }
}

#[test]
fn urban_garrison_can_be_stormed_when_beaten_or_outnumbered() {
    let mut g = grid(12, 12);
    g.set_terrain(HexCoord::new(6, 5), Terrain::Urban);

    let mut fresh = unit(10, UnitType::Infantry, Side::Defender, 6, 5);
    fresh.org = 90.0;
    fresh.defense = 100.0;
    let own_single = vec![unit(1, UnitType::Infantry, Side::Attacker, 5, 5)];
    let mut ai = Planner::new(Side::Attacker, CombatTactic::Blitz, 7);
    let actions = ai.plan_turn(&g, &own_single, &[fresh]);
    assert!(
        !matches!(action_for(&actions, 1), AiAction::Assault { .. }),
        "fresh lone garrison in urban must refuse the assault: {actions:?}"
    );

    let mut beaten = unit(11, UnitType::Infantry, Side::Defender, 6, 5);
    beaten.org = 30.0;
    beaten.defense = 100.0;
    let mut ai = Planner::new(Side::Attacker, CombatTactic::Blitz, 7);
    let actions = ai.plan_turn(&g, &own_single, &[beaten]);
    assert!(
        matches!(action_for(&actions, 1), AiAction::Assault { .. }),
        "beaten urban garrison must be stormable: {actions:?}"
    );

    let mut fresh2 = unit(12, UnitType::Infantry, Side::Defender, 6, 5);
    fresh2.org = 90.0;
    fresh2.defense = 100.0;
    let own_three = vec![
        unit(1, UnitType::Infantry, Side::Attacker, 5, 5),
        unit(2, UnitType::Infantry, Side::Attacker, 6, 6),
        unit(3, UnitType::Infantry, Side::Attacker, 7, 5),
    ];
    let mut ai = Planner::new(Side::Attacker, CombatTactic::Blitz, 7);
    let actions = ai.plan_turn(&g, &own_three, &[fresh2]);
    assert!(
        matches!(action_for(&actions, 1), AiAction::Assault { .. }),
        "3:1 urban siege line must storm: {actions:?}"
    );
}

#[test]
fn assault_card_prep_targets_the_pool_hex() {
    let g = grid(12, 12);
    let mut arty = unit(1, UnitType::ArtilleryBrigade, Side::Attacker, 4, 4);
    arty.is_emplaced = true;
    arty.attack_range = 8;
    let p1 = unit(2, UnitType::Infantry, Side::Attacker, 7, 4);
    let p2 = unit(3, UnitType::Infantry, Side::Attacker, 8, 3);
    let p3 = unit(4, UnitType::Infantry, Side::Attacker, 8, 5);
    let own = vec![arty, p1, p2, p3];
    let mut tough = unit(10, UnitType::Infantry, Side::Defender, 8, 4);
    tough.defense = 100.0;
    let mut weak = unit(11, UnitType::Infantry, Side::Defender, 4, 8);
    set_org_pct(&mut weak, 0.2);
    weak.defense = 10.0;
    let enemy = vec![tough, weak];

    let mut ai = Planner::new(Side::Attacker, CombatTactic::Assault, 5);
    let actions = ai.plan_turn(&g, &own, &enemy);
    match action_for(&actions, 1) {
        AiAction::FireSupport { target_hex, .. } => {
            assert_eq!(
                *target_hex,
                HexCoord::new(8, 4),
                "assault-card preparation must land on the pool's breach hex"
            );
        }
        other => panic!("emplaced battery with in-range targets must fire, got {other:?}"),
    }
}

#[test]
fn assault_card_prep_falls_back_to_weakest_without_a_pool() {
    let g = grid(12, 12);
    let mut arty = unit(1, UnitType::ArtilleryBrigade, Side::Attacker, 4, 4);
    arty.is_emplaced = true;
    arty.attack_range = 8;
    let own = vec![arty];
    let mut tough = unit(10, UnitType::Infantry, Side::Defender, 8, 4);
    tough.defense = 100.0;
    let mut weak = unit(11, UnitType::Infantry, Side::Defender, 4, 8);
    set_org_pct(&mut weak, 0.2);
    weak.defense = 10.0;
    let enemy = vec![tough, weak];

    let mut ai = Planner::new(Side::Attacker, CombatTactic::Assault, 5);
    let actions = ai.plan_turn(&g, &own, &enemy);
    match action_for(&actions, 1) {
        AiAction::FireSupport { target_hex, .. } => {
            assert_eq!(
                *target_hex,
                HexCoord::new(4, 8),
                "no poolable target: the weakest-hex preparation stands"
            );
        }
        other => panic!("emplaced battery with in-range targets must fire, got {other:?}"),
    }
}

#[test]
fn attrition_prep_keeps_the_weakest_hex() {
    let g = grid(12, 12);
    let mut arty = unit(1, UnitType::ArtilleryBrigade, Side::Attacker, 4, 4);
    arty.is_emplaced = true;
    arty.attack_range = 8;
    let p1 = unit(2, UnitType::Infantry, Side::Attacker, 7, 4);
    let p2 = unit(3, UnitType::Infantry, Side::Attacker, 8, 3);
    let p3 = unit(4, UnitType::Infantry, Side::Attacker, 8, 5);
    let own = vec![arty, p1, p2, p3];
    let mut tough = unit(10, UnitType::Infantry, Side::Defender, 8, 4);
    tough.defense = 100.0;
    let mut weak = unit(11, UnitType::Infantry, Side::Defender, 4, 8);
    set_org_pct(&mut weak, 0.2);
    weak.defense = 10.0;
    let enemy = vec![tough, weak];

    let mut ai = Planner::new(Side::Attacker, CombatTactic::OverwhelmingFire, 5);
    let actions = ai.plan_turn(&g, &own, &enemy);
    match action_for(&actions, 1) {
        AiAction::FireSupport { target_hex, .. } => {
            assert_eq!(
                *target_hex,
                HexCoord::new(4, 8),
                "Attrition bleeds the weakest hex even when a pool target exists"
            );
        }
        other => panic!("emplaced battery with in-range targets must fire, got {other:?}"),
    }
}

#[test]
fn beaten_invisible_wall_is_stormed_blind() {
    let g = grid(12, 12);
    let own_single = vec![unit(1, UnitType::Infantry, Side::Attacker, 5, 5)];
    let intel = vec![HexCoord::new(6, 6)];

    let mut beaten = unit(10, UnitType::Infantry, Side::Defender, 6, 5);
    set_org_pct(&mut beaten, 0.3);
    beaten.defense = 100.0;
    let mut ai = Planner::new(Side::Attacker, CombatTactic::Blitz, 7);
    let actions = ai.plan_turn_full(
        &g,
        &own_single,
        &[],
        Some(&intel),
        None,
        None,
        Some(std::slice::from_ref(&beaten)),
    );
    assert!(
        matches!(action_for(&actions, 1), AiAction::Assault { .. }),
        "beaten invisible wall must be probed blind: {actions:?}"
    );

    let mut fresh = unit(11, UnitType::Infantry, Side::Defender, 6, 5);
    fresh.org = 90.0;
    fresh.defense = 100.0;
    let mut ai = Planner::new(Side::Attacker, CombatTactic::Blitz, 7);
    let actions = ai.plan_turn_full(
        &g,
        &own_single,
        &[],
        Some(&intel),
        None,
        None,
        Some(std::slice::from_ref(&fresh)),
    );
    assert!(
        !matches!(action_for(&actions, 1), AiAction::Assault { .. }),
        "fresh invisible wall stays unmoved: {actions:?}"
    );

    let mut ai = Planner::new(Side::Attacker, CombatTactic::Blitz, 7);
    let actions = ai.plan_turn_full(
        &g,
        &own_single,
        std::slice::from_ref(&beaten),
        Some(&intel),
        None,
        None,
        Some(std::slice::from_ref(&beaten)),
    );
    assert!(
        !matches!(action_for(&actions, 1), AiAction::Assault { .. }),
        "visible beaten enemy on plains stays doctrine-refused: {actions:?}"
    );
}

#[test]
fn fall_back_never_steps_into_river() {
    let mut g = grid(12, 12);
    g.set_terrain(HexCoord::new(4, 5), Terrain::River);
    let mut ai = Planner::new(Side::Defender, CombatTactic::ElasticDefense, 999);

    let own = vec![unit(1, UnitType::Infantry, Side::Defender, 5, 5)];
    let enemy = vec![
        unit(10, UnitType::Infantry, Side::Attacker, 6, 5),
        unit(11, UnitType::Infantry, Side::Attacker, 6, 4),
    ];

    let actions = ai.plan_turn(&g, &own, &enemy);
    let dest = move_dest(action_for(&actions, 1));
    assert_eq!(
        dest,
        HexCoord::new(4, 6),
        "ford must be rejected, got {dest:?}"
    );
}

#[test]
fn fall_back_prefers_defensive_terrain() {
    let mut g = grid(12, 12);
    g.set_terrain(HexCoord::new(5, 6), Terrain::Forest);
    let mut ai = Planner::new(Side::Defender, CombatTactic::ElasticDefense, 999);

    let own = vec![unit(1, UnitType::Infantry, Side::Defender, 5, 5)];
    let enemy = vec![
        unit(10, UnitType::Infantry, Side::Attacker, 5, 4),
        unit(11, UnitType::Infantry, Side::Attacker, 6, 4),
    ];

    let actions = ai.plan_turn(&g, &own, &enemy);
    let dest = move_dest(action_for(&actions, 1));
    assert_eq!(
        dest,
        HexCoord::new(5, 6),
        "forest beats plains at equal distance, got {dest:?}"
    );
}

#[test]
fn elastic_reinforcement_stays_behind_river() {
    let mut g = grid(16, 12);
    for r in 0..12 {
        g.set_terrain(HexCoord::new(8, r), Terrain::River);
    }
    let mut ai = Planner::new(Side::Defender, CombatTactic::ElasticDefense, 999);

    let own = vec![unit(1, UnitType::Infantry, Side::Defender, 10, 7)];
    let enemy = vec![
        unit(10, UnitType::Infantry, Side::Attacker, 7, 8),
        unit(11, UnitType::Infantry, Side::Attacker, 7, 9),
    ];

    let actions = ai.plan_turn(&g, &own, &enemy);
    let dest = move_dest(action_for(&actions, 1));
    assert!(
        dest.q >= 9,
        "second line must form east of the river, got {dest:?}"
    );
    assert_eq!(
        g.cell(dest).map(|c| c.terrain),
        Some(Terrain::Plains),
        "never screen from inside a ford"
    );
    assert_eq!(
        dest.distance(HexCoord::new(7, 8)),
        2,
        "standoff ring at distance 2"
    );
}

#[test]
fn reinforcement_holds_when_shield_ring_manned() {
    let mut g = grid(16, 12);
    for r in 0..12 {
        g.set_terrain(HexCoord::new(8, r), Terrain::River);
    }
    let mut ai = Planner::new(Side::Defender, CombatTactic::ElasticDefense, 999);

    let own = vec![
        unit(1, UnitType::Infantry, Side::Defender, 9, 8),
        unit(2, UnitType::Infantry, Side::Defender, 9, 7),
        unit(3, UnitType::Infantry, Side::Defender, 9, 6),
        unit(4, UnitType::Infantry, Side::Defender, 10, 6),
    ];
    let enemy = vec![
        unit(10, UnitType::Infantry, Side::Attacker, 7, 8),
        unit(11, UnitType::Infantry, Side::Attacker, 7, 9),
    ];

    let actions = ai.plan_turn(&g, &own, &enemy);
    assert!(
        !actions
            .iter()
            .any(|a| matches!(a, AiAction::MoveUnit { .. })),
        "no one crosses when the shield ring is manned: {actions:?}"
    );
}

#[test]
fn blind_attacker_hold_role_marches_on_intel() {
    let g = grid(16, 8);
    let mut ai = Planner::new(Side::Attacker, CombatTactic::Blitz, 9);
    let own = vec![unit(1, UnitType::Infantry, Side::Attacker, 2, 3)];
    let intel = vec![HexCoord::new(12, 3)];
    let actions = ai.plan_turn_zone(&g, &own, &[], Some(&intel));
    assert!(
        matches!(action_for(&actions, 1), AiAction::MoveUnit { .. }),
        "blind attacking infantry must march on the intel: {actions:?}"
    );
}

#[test]
fn hold_role_infantry_holds_when_enemy_visible() {
    let g = grid(16, 8);
    let mut ai = Planner::new(Side::Attacker, CombatTactic::Blitz, 9);
    let own = vec![unit(1, UnitType::Infantry, Side::Attacker, 2, 3)];
    let enemy = vec![unit(10, UnitType::Infantry, Side::Defender, 2, 5)];
    let actions = ai.plan_turn(&g, &own, &enemy);
    assert!(
        matches!(action_for(&actions, 1), AiAction::Hold { .. }),
        "hold-role infantry holds while the enemy is in sight: {actions:?}"
    );
}

#[test]
fn blind_march_targets_the_intel_ring() {
    let g = grid(16, 8);
    let mut ai = Planner::new(Side::Attacker, CombatTactic::Blitz, 3);
    let own = vec![unit(1, UnitType::Infantry, Side::Attacker, 6, 3)];
    let intel: Vec<HexCoord> = (8..=13)
        .flat_map(|q| (2..=4).map(move |r| HexCoord::new(q, r)))
        .collect();
    let actions = ai.plan_turn_zone(&g, &own, &[], Some(&intel));
    match action_for(&actions, 1) {
        AiAction::MoveUnit { path, .. } => {
            let dest = *path.last().unwrap();
            assert!(
                dest.distance(HexCoord::new(6, 3)) >= 3,
                "blind goal must reach the 3+ ring, got {dest:?}"
            );
        }
        other => panic!("edge-adjacent unit must advance, got {other:?}"),
    }
}

#[test]
fn unit_inside_intel_marches_on_the_centroid_not_the_far_corner() {
    let g = grid(16, 8);
    let mut ai = Planner::new(Side::Attacker, CombatTactic::Blitz, 3);
    let own = vec![unit(1, UnitType::Infantry, Side::Attacker, 13, 3)];
    let intel: Vec<HexCoord> = (8..=13)
        .flat_map(|q| (2..=4).map(move |r| HexCoord::new(q, r)))
        .collect();
    let actions = ai.plan_turn_zone(&g, &own, &[], Some(&intel));
    match action_for(&actions, 1) {
        AiAction::MoveUnit { path, .. } => {
            let dest = *path.last().unwrap();
            assert!(
                dest.distance(HexCoord::new(13, 3)) <= 3
                    && dest.distance(HexCoord::new(10, 3)) < 3,
                "inside the zone: march toward the centroid, got {dest:?}"
            );
        }
        other => panic!("inside the zone must march on the centroid, got {other:?}"),
    }
}

#[test]
fn delay_falls_back_one_hex_in_contact() {
    let g = grid(12, 12);
    let mut ai = Planner::new(Side::Defender, CombatTactic::Delay, 1);
    let own = vec![unit(1, UnitType::Infantry, Side::Defender, 5, 5)];
    let enemy = vec![unit(10, UnitType::Infantry, Side::Attacker, 5, 4)];
    let actions = ai.plan_turn(&g, &own, &enemy);
    let dest = move_dest(action_for(&actions, 1));
    assert_eq!(
        dist_to_nearest(dest, &enemy),
        2,
        "delay keeps the 2-hex contact band, ended at {dest:?}"
    );
    assert_eq!(
        dest.distance(HexCoord::new(5, 5)),
        1,
        "exactly one hex back"
    );
}

#[test]
fn delay_holds_beyond_the_band_and_never_strikes() {
    let g = grid(12, 12);
    let mut ai = Planner::new(Side::Defender, CombatTactic::Delay, 2);
    let own = vec![unit(1, UnitType::Infantry, Side::Defender, 5, 5)];
    let enemy = vec![unit(10, UnitType::Infantry, Side::Attacker, 5, 1)];
    let actions = ai.plan_turn(&g, &own, &enemy);
    assert!(
        matches!(action_for(&actions, 1), AiAction::Hold { .. }),
        "enemy 4 hexes out: the delay screen holds: {actions:?}"
    );
}

#[test]
fn counterattack_strikes_only_a_window_target() {
    let g = grid(12, 12);
    let mut ai = Planner::new(Side::Defender, CombatTactic::Counterattack, 3);
    let mut beaten = unit(10, UnitType::Infantry, Side::Attacker, 5, 4);
    set_org_pct(&mut beaten, 0.05);
    let own = vec![unit(1, UnitType::Infantry, Side::Defender, 5, 5)];
    let actions = ai.plan_turn(&g, &own, &[beaten]);
    assert!(
        matches!(action_for(&actions, 1), AiAction::Assault { .. }),
        "isolated beaten target is the counter window: {actions:?}"
    );

    let mut ai2 = Planner::new(Side::Defender, CombatTactic::Counterattack, 3);
    let fresh = unit(11, UnitType::Infantry, Side::Attacker, 5, 4);
    let own2 = vec![unit(1, UnitType::Infantry, Side::Defender, 5, 5)];
    let actions = ai2.plan_turn(&g, &own2, &[fresh]);
    assert!(
        !matches!(action_for(&actions, 1), AiAction::Assault { .. }),
        "fresh isolated target is no counter window: {actions:?}"
    );

    let mut ai3 = Planner::new(Side::Defender, CombatTactic::Counterattack, 3);
    let own3 = vec![unit(1, UnitType::Infantry, Side::Defender, 5, 5)];
    let enemy3 = vec![
        unit(12, UnitType::Infantry, Side::Attacker, 5, 4),
        unit(13, UnitType::Infantry, Side::Attacker, 4, 4),
    ];
    let actions = ai3.plan_turn(&g, &own3, &enemy3);
    assert!(
        !matches!(action_for(&actions, 1), AiAction::Assault { .. }),
        "supported fresh line is no counter window: {actions:?}"
    );
}

#[test]
fn ambush_never_moves_but_strikes_at_point_blank() {
    let g = grid(12, 12);
    let mut ai = Planner::new(Side::Defender, CombatTactic::Ambush, 4);
    let own = vec![unit(1, UnitType::Infantry, Side::Defender, 5, 5)];
    let enemy = vec![unit(10, UnitType::Infantry, Side::Attacker, 5, 3)];
    let actions = ai.plan_turn(&g, &own, &enemy);
    assert!(
        matches!(action_for(&actions, 1), AiAction::Hold { .. }),
        "ambusher at range does not shuffle (no cover-shift): {actions:?}"
    );

    let mut ai2 = Planner::new(Side::Defender, CombatTactic::Ambush, 4);
    let own2 = vec![unit(1, UnitType::Infantry, Side::Defender, 5, 5)];
    let enemy2 = vec![unit(10, UnitType::Infantry, Side::Attacker, 5, 4)];
    let actions = ai2.plan_turn(&g, &own2, &enemy2);
    assert!(
        matches!(action_for(&actions, 1), AiAction::Assault { .. }),
        "ambusher strikes the enemy that steps adjacent: {actions:?}"
    );
}

#[test]
fn river_defense_holds_the_bank_and_hits_half_fords() {
    let mut g = grid(12, 12);
    g.set_terrain(HexCoord::new(5, 4), Terrain::River);
    let mut ai = Planner::new(Side::Defender, CombatTactic::RiverDefense, 5);
    let own = vec![unit(1, UnitType::Infantry, Side::Defender, 5, 5)];
    let enemy = vec![
        unit(10, UnitType::Infantry, Side::Attacker, 4, 4),
        unit(11, UnitType::Infantry, Side::Attacker, 6, 4),
    ];
    let actions = ai.plan_turn(&g, &own, &enemy);
    assert!(
        matches!(action_for(&actions, 1), AiAction::Hold { .. }),
        "river defense holds against adjacent pressure, never falls back: {actions:?}"
    );

    let mut ai2 = Planner::new(Side::Defender, CombatTactic::RiverDefense, 5);
    let own2 = vec![unit(1, UnitType::Infantry, Side::Defender, 5, 5)];
    let enemy2 = vec![unit(12, UnitType::Infantry, Side::Attacker, 5, 4)];
    let actions = ai2.plan_turn(&g, &own2, &enemy2);
    assert!(
        matches!(action_for(&actions, 1), AiAction::Assault { .. }),
        "half-forded enemy is struck: {actions:?}"
    );
}

#[test]
fn urban_defense_fights_in_the_city_only() {
    let mut g = grid(12, 12);
    for r in 0..12 {
        g.set_terrain(HexCoord::new(6, r), Terrain::Urban);
    }
    let mut ai = Planner::new(Side::Defender, CombatTactic::UrbanDefense, 6);
    let own = vec![unit(1, UnitType::Infantry, Side::Defender, 6, 6)];
    let enemy = vec![unit(10, UnitType::Infantry, Side::Attacker, 6, 5)];
    let actions = ai.plan_turn(&g, &own, &enemy);
    assert!(
        matches!(action_for(&actions, 1), AiAction::Assault { .. }),
        "city garrison strikes an enemy entering the city: {actions:?}"
    );

    let mut ai2 = Planner::new(Side::Defender, CombatTactic::UrbanDefense, 6);
    let own2 = vec![unit(2, UnitType::Infantry, Side::Defender, 4, 6)];
    let enemy2 = vec![unit(11, UnitType::Infantry, Side::Attacker, 4, 5)];
    let actions = ai2.plan_turn(&g, &own2, &enemy2);
    assert!(
        matches!(action_for(&actions, 2), AiAction::Hold { .. }),
        "units outside the city hold instead of marching out: {actions:?}"
    );
}

#[test]
fn assault_card_prepares_with_artillery_then_advances_infantry() {
    let g = grid(12, 10);
    let mut ai = Planner::new(Side::Attacker, CombatTactic::Assault, 7);
    let mut weak = unit(10, UnitType::Infantry, Side::Defender, 4, 5);
    set_org_pct(&mut weak, 0.20);
    let strong = unit(11, UnitType::Infantry, Side::Defender, 7, 5);
    let mut arty = unit(1, UnitType::ArtilleryBrigade, Side::Attacker, 4, 2);
    arty.is_emplaced = true;
    arty.attack_range = 8;
    let inf = unit(2, UnitType::Infantry, Side::Attacker, 4, 3);
    let own = vec![arty, inf];
    let enemy = vec![weak, strong];

    let actions = ai.plan_turn(&g, &own, &enemy);
    match action_for(&actions, 1) {
        AiAction::FireSupport { target_hex, .. } => {
            assert_eq!(*target_hex, HexCoord::new(4, 5), "prep on the weakest hex");
        }
        other => panic!("battery must fire preparation, got {other:?}"),
    }
    assert!(
        matches!(action_for(&actions, 2), AiAction::MoveUnit { .. }),
        "assault infantry advances (blitz shoulders would hold): {actions:?}"
    );
}

#[test]
fn river_assault_forces_the_crossing_with_infantry() {
    let g = grid(12, 12);
    let mut ai = Planner::new(Side::Attacker, CombatTactic::RiverAssault, 8);
    let own = vec![unit(1, UnitType::Infantry, Side::Attacker, 3, 5)];
    let enemy = vec![unit(10, UnitType::Infantry, Side::Defender, 8, 5)];
    let actions = ai.plan_turn(&g, &own, &enemy);
    assert!(
        matches!(action_for(&actions, 1), AiAction::MoveUnit { .. }),
        "river-assault infantry advances to the crossing: {actions:?}"
    );
}

#[test]
fn hq_shadows_division_and_never_attacks() {
    let g = grid(14, 14);
    let mut ai = Planner::new(Side::Defender, CombatTactic::Default, 1);
    let mut inf = unit(1, UnitType::Infantry, Side::Defender, 5, 5);
    inf.division = "D".to_string();
    let own = vec![inf, hq(2, Side::Defender, 1, 1, "D")];
    let enemy = vec![unit(10, UnitType::Infantry, Side::Attacker, 12, 12)];
    let actions = ai.plan_turn(&g, &own, &enemy);
    match action_for(&actions, 2) {
        AiAction::MoveUnit { path, .. } => {
            let dest = path.last().unwrap();
            assert!(
                dest.distance(HexCoord::new(5, 5)) < 8,
                "HQ closes on the division: {dest:?}"
            );
        }
        other => panic!("HQ must never attack, got {other:?}"),
    }
}

#[test]
fn hq_on_leash_holds_position() {
    let g = grid(14, 14);
    let mut ai = Planner::new(Side::Defender, CombatTactic::Default, 1);
    let mut inf = unit(1, UnitType::Infantry, Side::Defender, 5, 5);
    inf.division = "D".to_string();
    let own = vec![inf, hq(2, Side::Defender, 5, 7, "D")];
    let enemy = vec![unit(10, UnitType::Infantry, Side::Attacker, 12, 12)];
    let actions = ai.plan_turn(&g, &own, &enemy);
    assert!(
        matches!(action_for(&actions, 2), AiAction::Hold { .. }),
        "HQ on the leash holds: {actions:?}"
    );
}

#[test]
fn hq_breaks_contact_before_holding_the_leash() {
    let g = grid(14, 14);
    let mut ai = Planner::new(Side::Defender, CombatTactic::Default, 1);
    let mut inf = unit(1, UnitType::Infantry, Side::Defender, 5, 5);
    inf.division = "D".to_string();
    let own = vec![inf, hq(2, Side::Defender, 2, 1, "D")];
    let enemy = vec![unit(10, UnitType::Infantry, Side::Attacker, 2, 2)];
    let actions = ai.plan_turn(&g, &own, &enemy);
    match action_for(&actions, 2) {
        AiAction::MoveUnit { path, .. } => {
            let dest = path.last().unwrap();
            assert!(
                dest.distance(HexCoord::new(2, 2)) > 1,
                "HQ disengages from contact: {dest:?}"
            );
        }
        other => panic!("HQ in contact must disengage, got {other:?}"),
    }
}

#[test]
fn hq_follow_targets_a_free_hex_not_the_occupied_anchor() {
    let g = grid(14, 14);
    let mut ai = Planner::new(Side::Defender, CombatTactic::Default, 1);
    let mut inf = unit(1, UnitType::Infantry, Side::Defender, 5, 5);
    inf.division = "D".to_string();
    let own = vec![inf, hq(2, Side::Defender, 1, 1, "D")];
    let enemy = vec![unit(10, UnitType::Infantry, Side::Attacker, 12, 12)];
    let actions = ai.plan_turn(&g, &own, &enemy);
    match action_for(&actions, 2) {
        AiAction::MoveUnit { path, .. } => {
            let dest = *path.last().unwrap();
            assert_ne!(dest, HexCoord::new(5, 5), "never the occupied anchor");
            assert!(
                dest.distance(HexCoord::new(5, 5)) < 3,
                "still inside the aura: {dest:?}"
            );
        }
        other => panic!("off-leash HQ must follow, got {other:?}"),
    }
}

#[test]
fn hq_reaffirms_a_still_valid_standing_destination() {
    let g = grid(14, 14);
    let mut ai = Planner::new(Side::Defender, CombatTactic::Default, 1);
    let mut inf = unit(1, UnitType::Infantry, Side::Defender, 5, 5);
    inf.division = "D".to_string();
    let mut hq = hq(2, Side::Defender, 2, 2, "D");
    hq.move_order = Some(MoveOrder {
        path: vec![HexCoord::new(3, 3), HexCoord::new(4, 4)],
        hours: 0.1,
    });
    let own = vec![inf, hq];
    let enemy = vec![unit(10, UnitType::Infantry, Side::Attacker, 12, 12)];
    let actions = ai.plan_turn(&g, &own, &enemy);
    match action_for(&actions, 2) {
        AiAction::MoveUnit { path, .. } => {
            assert_eq!(
                path.last(),
                Some(&HexCoord::new(4, 4)),
                "standing destination is re-affirmed: {path:?}"
            );
        }
        other => panic!("HQ with a valid standing order keeps following: {other:?}"),
    }
}

#[test]
fn retreating_enemy_is_assaulted_past_the_odds_gate() {
    let g = grid(12, 12);
    let mut ai = Planner::new(Side::Attacker, CombatTactic::Default, 1);
    let own = vec![unit(1, UnitType::Infantry, Side::Attacker, 5, 5)];
    let mut leaver = unit(10, UnitType::Infantry, Side::Defender, 5, 6);
    leaver.state = UnitState::Retreating;
    let enemy = vec![
        leaver,
        unit(11, UnitType::Infantry, Side::Defender, 4, 6),
        unit(12, UnitType::Infantry, Side::Defender, 6, 6),
    ];
    let actions = ai.plan_turn(&g, &own, &enemy);
    assert!(
        matches!(
            action_for(&actions, 1),
            AiAction::Assault { target_id: 10, .. }
        ),
        "the retreating enemy is assaulted despite the escort: {actions:?}"
    );
}

#[test]
fn retreating_enemy_outranks_a_same_pool_standing_target() {
    let g = grid(12, 12);
    let mut ai = Planner::new(Side::Attacker, CombatTactic::Default, 1);
    let own = vec![unit(1, UnitType::Infantry, Side::Attacker, 5, 5)];
    let mut leaver = unit(10, UnitType::Infantry, Side::Defender, 5, 6);
    leaver.state = UnitState::Retreating;
    let mut beaten = unit(11, UnitType::Infantry, Side::Defender, 4, 5);
    beaten.org = 10.0;
    let enemy = vec![leaver, beaten];
    let actions = ai.plan_turn(&g, &own, &enemy);
    assert!(
        matches!(
            action_for(&actions, 1),
            AiAction::Assault { target_id: 10, .. }
        ),
        "the leaver ranks as free damage: {actions:?}"
    );
}

#[test]
fn retreating_enemy_stays_visible_to_fire_missions() {
    let g = grid(12, 12);
    let mut ai = Planner::new(Side::Attacker, CombatTactic::Default, 1);
    let mut arty = unit(1, UnitType::ArtilleryBrigade, Side::Attacker, 2, 2);
    arty.is_emplaced = true;
    let own = vec![arty];
    let mut leaver = unit(10, UnitType::Infantry, Side::Defender, 5, 2);
    leaver.state = UnitState::Retreating;
    let enemy = vec![leaver];
    let actions = ai.plan_turn(&g, &own, &enemy);
    match action_for(&actions, 1) {
        AiAction::FireSupport { target_hex, .. } => {
            assert_eq!(*target_hex, HexCoord::new(5, 2));
        }
        other => panic!("battery must shell the leaver, got {other:?}"),
    }
}

#[test]
fn probe_strikes_a_weak_contact_instead_of_ramming() {
    let g = grid(12, 12);
    let mut ai = Planner::new(Side::Attacker, CombatTactic::Default, 1);
    let own = vec![unit(1, UnitType::Recon, Side::Attacker, 5, 5)];
    let mut soft = unit(10, UnitType::Recon, Side::Defender, 5, 6);
    soft.defense = 1.0;
    let enemy = vec![soft];
    let actions = ai.plan_turn(&g, &own, &enemy);
    assert!(
        matches!(
            action_for(&actions, 1),
            AiAction::Assault { target_id: 10, .. }
        ),
        "a winning contact is struck, not rammed: {actions:?}"
    );
}

#[test]
fn probe_holds_a_refused_contact_instead_of_ramming() {
    let g = grid(12, 12);
    let mut ai = Planner::new(Side::Attacker, CombatTactic::Default, 1);
    let own = vec![unit(1, UnitType::Recon, Side::Attacker, 5, 5)];
    let mut wall = unit(10, UnitType::MediumArmor, Side::Defender, 5, 6);
    wall.defense = 1000.0;
    let enemy = vec![wall];
    let actions = ai.plan_turn(&g, &own, &enemy);
    assert!(
        matches!(action_for(&actions, 1), AiAction::Hold { unit_id: 1 }),
        "refused contact = hold, not another rammed approach: {actions:?}"
    );
}

#[test]
fn assault_role_holds_a_refused_contact() {
    let g = grid(12, 12);
    let mut ai = Planner::new(Side::Attacker, CombatTactic::Assault, 1);
    let own = vec![unit(1, UnitType::Infantry, Side::Attacker, 5, 5)];
    let mut wall = unit(10, UnitType::MediumArmor, Side::Defender, 5, 6);
    wall.defense = 1000.0;
    let enemy = vec![wall];
    let actions = ai.plan_turn(&g, &own, &enemy);
    assert!(
        matches!(action_for(&actions, 1), AiAction::Hold { unit_id: 1 }),
        "refused contact = hold the line: {actions:?}"
    );
}

#[test]
fn attacker_blind_march_aims_at_the_flags() {
    let g = grid(24, 24);
    let mut ai = Planner::new(Side::Attacker, CombatTactic::Blitz, 1);
    let zone: Vec<HexCoord> = (18..22).map(|r| HexCoord::new(20, r)).collect();
    let flags = flag_state(0, HexCoord::new(20, 20), &zone);
    let own = vec![unit(1, UnitType::Infantry, Side::Attacker, 4, 4)];
    let enemy: Vec<Battalion> = Vec::new();
    let intel: Vec<HexCoord> = (0..2).map(|r| HexCoord::new(0, r)).collect();
    let actions = ai.plan_turn_flags(&g, &own, &enemy, Some(&intel), Some(&flags), None);
    let dest = move_dest(action_for(&actions, 1));
    assert!(
        zone.iter().any(|z| z.distance(dest) <= 1),
        "blind march must aim at the flag zone, got {dest:?}"
    );
}

#[test]
fn hold_role_infantry_occupies_a_cleared_flag_zone_despite_visible_pocket() {
    let g = grid(30, 30);
    let mut ai = Planner::new(Side::Attacker, CombatTactic::Blitz, 1);
    let zone: Vec<HexCoord> = vec![HexCoord::new(12, 10), HexCoord::new(13, 10)];
    let flags = flag_state(0, HexCoord::new(13, 10), &zone);
    let own = vec![unit(1, UnitType::Infantry, Side::Attacker, 10, 10)];
    let enemy = vec![unit(9, UnitType::Infantry, Side::Defender, 25, 25)];
    let intel: Vec<HexCoord> = vec![HexCoord::new(25, 25)];
    let actions = ai.plan_turn_flags(&g, &own, &enemy, Some(&intel), Some(&flags), None);
    let dest = move_dest(action_for(&actions, 1));
    assert!(
        zone.iter().any(|z| z.distance(dest) <= 1),
        "cleared flag zone nearby = occupy it, got {dest:?}"
    );
}

#[test]
fn hold_role_infantry_holds_while_the_flag_zone_is_contested() {
    let g = grid(30, 30);
    let mut ai = Planner::new(Side::Attacker, CombatTactic::Blitz, 1);
    let zone: Vec<HexCoord> = vec![HexCoord::new(12, 10), HexCoord::new(13, 10)];
    let flags = flag_state(0, HexCoord::new(13, 10), &zone);
    let own = vec![unit(1, UnitType::Infantry, Side::Attacker, 10, 10)];
    let enemy = vec![unit(9, UnitType::Infantry, Side::Defender, 13, 10)];
    let intel: Vec<HexCoord> = vec![HexCoord::new(13, 10)];
    let actions = ai.plan_turn_flags(&g, &own, &enemy, Some(&intel), Some(&flags), None);
    assert!(
        matches!(action_for(&actions, 1), AiAction::Hold { unit_id: 1 }),
        "contested zone + visible enemy = hold: {actions:?}"
    );
}

#[test]
fn hold_role_infantry_holds_when_the_cleared_flag_is_beyond_reach() {
    let g = grid(30, 30);
    let mut ai = Planner::new(Side::Attacker, CombatTactic::Blitz, 1);
    let zone: Vec<HexCoord> = vec![HexCoord::new(25, 25)];
    let flags = flag_state(0, HexCoord::new(25, 25), &zone);
    let own = vec![unit(1, UnitType::Infantry, Side::Attacker, 10, 10)];
    let enemy = vec![unit(9, UnitType::Infantry, Side::Defender, 12, 10)];
    let intel: Vec<HexCoord> = vec![HexCoord::new(25, 25)];
    let actions = ai.plan_turn_flags(&g, &own, &enemy, Some(&intel), Some(&flags), None);
    assert!(
        matches!(action_for(&actions, 1), AiAction::Hold { unit_id: 1 }),
        "cleared but distant flag = keep holding: {actions:?}"
    );
}

#[test]
fn blind_battery_stops_at_physical_envelope_edge() {
    let g = grid(30, 12);
    let mut ai = Planner::new(Side::Attacker, CombatTactic::Default, 5);
    let mut arty = unit(1, UnitType::ArtilleryBrigade, Side::Attacker, 4, 4);
    arty.attack_range = 9;
    let own = vec![arty];
    let city = HexCoord::new(20, 4);
    let garrison = unit(10, UnitType::Infantry, Side::Defender, city.q, city.r);
    let flags = flag_state(0, city, &[city]);
    let actions = ai.plan_turn_full(
        &g,
        &own,
        &[],
        Some(&[city]),
        Some(&flags),
        None,
        Some(&[garrison]),
    );
    match action_for(&actions, 1) {
        AiAction::MoveUnit { path, .. } => {
            assert!(
                path.iter().all(|h| h.distance(city) >= 2),
                "the march must never step onto the enemy (standoff 2), got path {path:?}"
            );
            assert!(
                path.last().map(|h| h.distance(city) <= 9).unwrap_or(false),
                "and must close to within the envelope for the emplace branch: {path:?}"
            );
        }
        other => panic!("battery should march, got {other:?}"),
    }
}

#[test]
fn defender_holds_inside_threatened_flag_zone() {
    let g = grid(24, 24);
    let mut ai = Planner::new(Side::Defender, CombatTactic::ElasticDefense, 1);
    let zone = vec![HexCoord::new(10, 10), HexCoord::new(11, 10)];
    let flags = flag_state(4, HexCoord::new(10, 10), &zone);
    let own = vec![unit(1, UnitType::Infantry, Side::Defender, 10, 10)];
    let enemy = vec![
        unit(10, UnitType::Infantry, Side::Attacker, 11, 10),
        unit(11, UnitType::Infantry, Side::Attacker, 12, 10),
    ];
    let actions = ai.plan_turn_flags(&g, &own, &enemy, None, Some(&flags), None);
    assert!(
        matches!(action_for(&actions, 1), AiAction::Hold { .. }),
        "in-zone defender at 1/3+ progress must hold, got {:?}",
        action_for(&actions, 1)
    );
    let mut ai2 = Planner::new(Side::Defender, CombatTactic::ElasticDefense, 1);
    let flags2 = flag_state(1, HexCoord::new(10, 10), &zone);
    let actions2 = ai2.plan_turn_flags(&g, &own, &enemy, None, Some(&flags2), None);
    match action_for(&actions2, 1) {
        AiAction::MoveUnit { path, .. } => {
            assert!(
                path.last().unwrap().distance(HexCoord::new(11, 10)) > 1,
                "below 1/3 the elastic line still falls back"
            );
        }
        other => panic!("below 1/3 the doctrine stands, got {other:?}"),
    }
}

#[test]
fn defender_tier_counterattack_marches_into_the_zone() {
    let g = grid(24, 24);
    let mut ai = Planner::new(Side::Defender, CombatTactic::Counterattack, 1);
    let zone: Vec<HexCoord> = (9..11)
        .flat_map(|q| (9..11).map(move |r| HexCoord::new(q, r)))
        .collect();
    let flags = flag_state(9, HexCoord::new(10, 10), &zone);
    let own = vec![unit(1, UnitType::Infantry, Side::Defender, 14, 14)];
    let enemy = vec![unit(10, UnitType::Infantry, Side::Attacker, 20, 20)];
    let actions = ai.plan_turn_flags(&g, &own, &enemy, None, Some(&flags), None);
    let dest = move_dest(action_for(&actions, 1));
    assert!(
        zone.iter().any(|z| *z == dest) || dest.distance(HexCoord::new(10, 10)) <= 2,
        "counterattack must head INTO the flag zone, got {dest:?}"
    );
}

#[test]
fn defender_tier_screen_forms_around_the_anchor() {
    let g = grid(24, 24);
    let mut ai = Planner::new(Side::Defender, CombatTactic::ElasticDefense, 1);
    let zone: Vec<HexCoord> = (9..11)
        .flat_map(|q| (9..11).map(move |r| HexCoord::new(q, r)))
        .collect();
    let flags = flag_state(6, HexCoord::new(10, 10), &zone);
    let own = vec![unit(1, UnitType::Infantry, Side::Defender, 14, 14)];
    let enemy = vec![unit(10, UnitType::Infantry, Side::Attacker, 20, 20)];
    let actions = ai.plan_turn_flags(&g, &own, &enemy, None, Some(&flags), None);
    let dest = move_dest(action_for(&actions, 1));
    assert_eq!(
        dest.distance(HexCoord::new(10, 10)),
        2,
        "reinforcement screens the anchor at standoff 2, got {dest:?}"
    );
}

#[test]
fn defender_units_inside_a_zone_are_never_rerouted_away() {
    let g = grid(24, 24);
    let mut ai = Planner::new(Side::Defender, CombatTactic::ElasticDefense, 1);
    let zone = vec![HexCoord::new(10, 10), HexCoord::new(11, 10)];
    let flags = flag_state(12, HexCoord::new(10, 10), &zone);
    let own = vec![
        unit(1, UnitType::Infantry, Side::Defender, 10, 10),
        unit(2, UnitType::Infantry, Side::Defender, 15, 15),
    ];
    let enemy = vec![unit(10, UnitType::Infantry, Side::Attacker, 20, 20)];
    let actions = ai.plan_turn_flags(&g, &own, &enemy, None, Some(&flags), None);
    assert!(matches!(action_for(&actions, 1), AiAction::Hold { .. }));
    let dest = move_dest(action_for(&actions, 2));
    assert!(
        dest.distance(HexCoord::new(10, 10)) <= 2,
        "rear unit counterattacks the zone, got {dest:?}"
    );
}

#[test]
fn flags_are_ignored_below_one_third_progress() {
    let g = grid(24, 24);
    let mut ai = Planner::new(Side::Defender, CombatTactic::ElasticDefense, 1);
    let zone = vec![HexCoord::new(10, 10), HexCoord::new(11, 10)];
    let flags = flag_state(1, HexCoord::new(10, 10), &zone);
    let own = vec![unit(1, UnitType::Infantry, Side::Defender, 14, 14)];
    let enemy = vec![unit(10, UnitType::Infantry, Side::Attacker, 20, 20)];
    let actions = ai.plan_turn_flags(&g, &own, &enemy, None, Some(&flags), None);
    assert!(matches!(action_for(&actions, 1), AiAction::Hold { .. }));
}

#[test]
fn seize_order_marches_on_the_hex_not_the_intel() {
    let g = grid(24, 24);
    let mut ai = Planner::new(Side::Attacker, CombatTactic::Assault, 1);
    let own = vec![unit(1, UnitType::Infantry, Side::Attacker, 4, 4)];
    let enemy: Vec<Battalion> = Vec::new();
    let intel = vec![HexCoord::new(20, 20)];
    let seize = HexCoord::new(12, 8);

    let with_order = ai.plan_turn_div_order(
        &g,
        &own,
        &enemy,
        Some(&intel),
        None,
        Some(DivOrderTarget::Seize { hex: seize }),
    );
    assert_eq!(move_dest(action_for(&with_order, 1)), seize);

    let without = ai.plan_turn_div_order(&g, &own, &enemy, Some(&intel), None, None);
    assert_eq!(move_dest(action_for(&without, 1)), HexCoord::new(20, 20));
}

#[test]
fn seize_goal_keeps_standing_destination_across_turns() {
    let g = grid(24, 24);
    let mut ai = Planner::new(Side::Attacker, CombatTactic::Assault, 1);
    let seize = HexCoord::new(12, 8);
    let kept = HexCoord::new(12, 9);
    let mut u1 = unit(1, UnitType::Infantry, Side::Attacker, 4, 4);
    u1.move_order = Some(MoveOrder {
        path: vec![HexCoord::new(5, 4), kept],
        hours: 0.15,
    });
    let own = vec![u1];
    let enemy: Vec<Battalion> = Vec::new();
    let intel = vec![HexCoord::new(20, 20)];
    let actions = ai.plan_turn_div_order(
        &g,
        &own,
        &enemy,
        Some(&intel),
        None,
        Some(DivOrderTarget::Seize { hex: seize }),
    );
    assert_eq!(move_dest(action_for(&actions, 1)), kept);
}

#[test]
fn seize_goal_respreads_when_standing_destination_occupied() {
    let g = grid(24, 24);
    let mut ai = Planner::new(Side::Attacker, CombatTactic::Assault, 1);
    let seize = HexCoord::new(12, 8);
    let mut u1 = unit(1, UnitType::Infantry, Side::Attacker, 4, 4);
    u1.move_order = Some(MoveOrder {
        path: vec![HexCoord::new(5, 4), HexCoord::new(12, 9)],
        hours: 0.15,
    });
    let own = vec![u1, unit(2, UnitType::Infantry, Side::Attacker, 12, 9)];
    let enemy: Vec<Battalion> = Vec::new();
    let actions = ai.plan_turn_div_order(
        &g,
        &own,
        &enemy,
        None,
        None,
        Some(DivOrderTarget::Seize { hex: seize }),
    );
    let dest = move_dest(action_for(&actions, 1));
    assert_ne!(dest, HexCoord::new(12, 9), "occupied keep-lapsed: {dest:?}");
    assert!(
        dest.distance(seize) <= 2,
        "re-spread stays in the objective area: {dest:?}"
    );
}

#[test]
fn even_match_assault_opens_when_pooled() {
    let g = grid(24, 24);
    let enemy = vec![unit(9, UnitType::Infantry, Side::Defender, 10, 10)];
    let mut ai = Planner::new(Side::Attacker, CombatTactic::Assault, 1);
    let solo_own = vec![unit(1, UnitType::Infantry, Side::Attacker, 10, 11)];
    let actions = ai.plan_turn_div_order(&g, &solo_own, &enemy, None, None, None);
    assert!(
        !matches!(action_for(&actions, 1), AiAction::Assault { .. }),
        "lone attacker refuses the even trade"
    );
    let mut ai = Planner::new(Side::Attacker, CombatTactic::Assault, 1);
    let own = vec![
        unit(1, UnitType::Infantry, Side::Attacker, 10, 11),
        unit(2, UnitType::Infantry, Side::Attacker, 11, 10),
    ];
    let actions = ai.plan_turn_div_order(&g, &own, &enemy, None, None, None);
    for id in [1, 2] {
        match action_for(&actions, id) {
            AiAction::Assault { target_id, .. } => assert_eq!(*target_id, 9),
            other => panic!("unit {id} should join the pooled assault, got {other:?}"),
        }
    }
}

#[test]
fn assault_prefers_the_joinable_victim() {
    let g = grid(24, 24);
    let mut d_a = unit(9, UnitType::Infantry, Side::Defender, 10, 10);
    d_a.org = 5.0;
    let mut d_b = unit(10, UnitType::Infantry, Side::Defender, 12, 10);
    d_b.org = 5.0;
    let enemy = vec![d_a, d_b];
    let own = vec![
        unit(1, UnitType::Infantry, Side::Attacker, 11, 10),
        unit(2, UnitType::Infantry, Side::Attacker, 10, 11),
    ];
    let mut ai = Planner::new(Side::Attacker, CombatTactic::Assault, 1);
    let actions = ai.plan_turn_div_order(&g, &own, &enemy, None, None, None);
    match action_for(&actions, 1) {
        AiAction::Assault { target_id, .. } => {
            assert_eq!(*target_id, 9, "the joinable victim wins the tie")
        }
        other => panic!("unit 1 should assault, got {other:?}"),
    }
}

#[test]
fn engage_order_pursues_the_target_ignoring_nearer_enemies() {
    let g = grid(24, 24);
    let mut ai = Planner::new(Side::Attacker, CombatTactic::Assault, 1);
    let own = vec![unit(1, UnitType::Infantry, Side::Attacker, 4, 4)];
    let target = unit(10, UnitType::Infantry, Side::Defender, 13, 4);
    let enemy = vec![
        unit(11, UnitType::Infantry, Side::Defender, 7, 4),
        target.clone(),
    ];
    let order = DivOrderTarget::Engage {
        unit: target.id,
        last_pos: target.position,
    };
    let actions = ai.plan_turn_div_order(&g, &own, &enemy, None, None, Some(order));
    let dest = move_dest(action_for(&actions, 1));
    assert_eq!(
        dest,
        HexCoord::new(12, 4),
        "pursuit closes on the target: {dest:?}"
    );
    assert_ne!(
        dest,
        HexCoord::new(7, 4),
        "never traded for the nearer decoy"
    );

    let without = ai.plan_turn_div_order(&g, &own, &enemy, None, None, None);
    assert_eq!(move_dest(action_for(&without, 1)), HexCoord::new(7, 4));
}

#[test]
fn engage_order_assaults_the_target_itself() {
    let g = grid(12, 12);
    let mut ai = Planner::new(Side::Attacker, CombatTactic::Assault, 1);
    let mut mk_own = |id: usize, q: i32, r: i32| {
        let mut u = unit(id, UnitType::Infantry, Side::Attacker, q, r);
        u.breakthrough = 40.0;
        u
    };
    let own = vec![mk_own(1, 4, 4), mk_own(2, 5, 4), mk_own(3, 4, 5)];
    let target = unit(10, UnitType::Infantry, Side::Defender, 3, 4);
    let enemy = vec![
        unit(11, UnitType::Infantry, Side::Defender, 3, 5),
        target.clone(),
    ];
    let order = DivOrderTarget::Engage {
        unit: target.id,
        last_pos: target.position,
    };
    let actions = ai.plan_turn_div_order(&g, &own, &enemy, None, None, Some(order));
    match action_for(&actions, 1) {
        AiAction::Assault { target_id, .. } => assert_eq!(*target_id, target.id),
        other => panic!("expected the target assault, got {other:?}"),
    }
}

#[test]
fn seize_order_prefers_the_points_own_defenders() {
    let g = grid(12, 12);
    let mut ai = Planner::new(Side::Attacker, CombatTactic::Assault, 1);
    let mut mk_own = |id: usize, q: i32, r: i32| {
        let mut u = unit(id, UnitType::Infantry, Side::Attacker, q, r);
        u.breakthrough = 40.0;
        u
    };
    let own = vec![mk_own(1, 4, 4), mk_own(2, 5, 4), mk_own(3, 4, 5)];
    let on_hex = unit(10, UnitType::Infantry, Side::Defender, 3, 4);
    let enemy = vec![
        on_hex.clone(),
        unit(11, UnitType::Infantry, Side::Defender, 3, 5),
    ];
    let actions = ai.plan_turn_div_order(
        &g,
        &own,
        &enemy,
        None,
        None,
        Some(DivOrderTarget::Seize {
            hex: on_hex.position,
        }),
    );
    match action_for(&actions, 1) {
        AiAction::Assault { target_id, .. } => assert_eq!(*target_id, on_hex.id),
        other => panic!("expected the point's defender, got {other:?}"),
    }
}

#[test]
fn division_plan_skips_manually_overridden_units_and_has_no_end_turn() {
    let g = grid(12, 12);
    let mut ai = Planner::new(Side::Attacker, CombatTactic::Assault, 1);
    let mut micromanaged = unit(1, UnitType::Infantry, Side::Attacker, 4, 4);
    micromanaged.manual_override = true;
    let own = vec![
        micromanaged,
        unit(2, UnitType::Infantry, Side::Attacker, 5, 4),
    ];
    let enemy = vec![unit(10, UnitType::Infantry, Side::Defender, 8, 8)];
    let actions = ai.plan_turn_div_order(&g, &own, &enemy, None, None, None);
    let planned_for_1 = |a: &AiAction| -> bool {
        match a {
            AiAction::MoveUnit { unit_id, .. } => *unit_id == 1,
            AiAction::Assault { attacker_id, .. } => *attacker_id == 1,
            AiAction::FireSupport { attacker_id, .. } => *attacker_id == 1,
            AiAction::Hold { unit_id } => *unit_id == 1,
            AiAction::Emplace { unit_id } => *unit_id == 1,
            AiAction::Limber { unit_id } => *unit_id == 1,
            AiAction::Retreat { unit_id } => *unit_id == 1,
            AiAction::EndTurn => false,
        }
    };
    assert!(
        !actions.iter().any(planned_for_1),
        "manual override must shield the unit: {actions:?}"
    );
    assert!(
        !matches!(actions.last(), Some(AiAction::EndTurn)),
        "division plans must not carry the EndTurn marker: {actions:?}"
    );
    let _ = action_for(&actions, 2);
}

#[test]
fn advance_ignores_enemies_outside_sensor_radius() {
    let g = grid(30, 30);
    let mut ai = Planner::new(Side::Attacker, CombatTactic::Assault, 1);
    let own = vec![unit(1, UnitType::Infantry, Side::Attacker, 4, 4)];
    let enemy = vec![unit(10, UnitType::Infantry, Side::Defender, 4, 16)];
    let intel = vec![HexCoord::new(20, 20)];
    let actions = ai.plan_turn_div_order(&g, &own, &enemy, Some(&intel), None, None);
    let dest = move_dest(action_for(&actions, 1));
    assert_eq!(
        dest,
        HexCoord::new(20, 20),
        "advance marches on the intel, not the far enemy: {dest:?}"
    );
}

#[test]
fn advance_engages_enemies_inside_sensor_radius() {
    let g = grid(30, 30);
    let mut ai = Planner::new(Side::Attacker, CombatTactic::Assault, 1);
    let own = vec![unit(1, UnitType::Infantry, Side::Attacker, 4, 4)];
    let enemy = vec![unit(10, UnitType::Infantry, Side::Defender, 8, 8)];
    let actions = ai.plan_turn_div_order(&g, &own, &enemy, None, None, None);
    let dest = move_dest(action_for(&actions, 1));
    assert_eq!(
        dest,
        HexCoord::new(8, 8),
        "in-radius enemy is the goal: {dest:?}"
    );
}

#[test]
fn sensor_filter_keeps_far_enemies_as_path_obstacles() {
    let g = grid(30, 30);
    let mut ai = Planner::new(Side::Attacker, CombatTactic::Assault, 1);
    let own = vec![unit(1, UnitType::Infantry, Side::Attacker, 4, 4)];
    let enemy = vec![unit(10, UnitType::Infantry, Side::Defender, 15, 4)];
    let intel = vec![HexCoord::new(20, 4)];
    let actions = ai.plan_turn_div_order(&g, &own, &enemy, Some(&intel), None, None);
    match action_for(&actions, 1) {
        AiAction::MoveUnit { path, .. } => {
            assert_eq!(
                *path.last().unwrap(),
                HexCoord::new(20, 4),
                "destination still reachable: {path:?}"
            );
            assert!(
                !path.contains(&HexCoord::new(15, 4)),
                "the far enemy's hex still blocks the route: {path:?}"
            );
        }
        other => panic!("expected a march around the far enemy, got {other:?}"),
    }
}

#[test]
fn seize_order_ignores_far_enemies_outside_sensor_radius() {
    let g = grid(30, 30);
    let mut ai = Planner::new(Side::Attacker, CombatTactic::Assault, 1);
    let own = vec![unit(1, UnitType::Infantry, Side::Attacker, 4, 4)];
    let enemy = vec![unit(10, UnitType::Infantry, Side::Defender, 4, 16)];
    let seize = HexCoord::new(12, 8);
    let actions = ai.plan_turn_div_order(
        &g,
        &own,
        &enemy,
        None,
        None,
        Some(DivOrderTarget::Seize { hex: seize }),
    );
    let dest = move_dest(action_for(&actions, 1));
    assert_eq!(dest, seize, "seize rushes the point: {dest:?}");
}

#[test]
fn seize_order_spreads_the_division_around_the_point() {
    let g = grid(24, 24);
    let mut ai = Planner::new(Side::Attacker, CombatTactic::Assault, 1);
    let own = vec![
        unit(1, UnitType::Infantry, Side::Attacker, 4, 4),
        unit(2, UnitType::Infantry, Side::Attacker, 4, 8),
        unit(3, UnitType::Infantry, Side::Attacker, 8, 4),
    ];
    let seize = HexCoord::new(12, 12);
    let actions = ai.plan_turn_div_order(
        &g,
        &own,
        &[],
        None,
        None,
        Some(DivOrderTarget::Seize { hex: seize }),
    );
    let dests: Vec<HexCoord> = [1, 2, 3]
        .iter()
        .map(|id| move_dest(action_for(&actions, *id)))
        .collect();
    let distinct: HashSet<HexCoord> = dests.iter().copied().collect();
    assert!(
        distinct.len() >= 2,
        "goals must spread, not funnel: {dests:?}"
    );
    for d in &dests {
        assert!(
            d.distance(seize) <= 2,
            "all goals stay in the objective area: {dests:?}"
        );
    }
    assert!(
        dests.contains(&seize),
        "someone must march onto the point itself: {dests:?}"
    );
}

#[test]
fn seized_hold_back_emplaces_the_guns_instead_of_creeping() {
    let g = grid(24, 24);
    let own = vec![unit(1, UnitType::ArtilleryBrigade, Side::Attacker, 4, 4)];
    let enemy = vec![unit(10, UnitType::Infantry, Side::Defender, 4, 14)];
    let seize = HexCoord::new(12, 12);
    let order = DivOrderTarget::Seize { hex: seize };
    let mut holdback = Planner::new(Side::Attacker, CombatTactic::ElasticDefense, 1);
    let actions = holdback.plan_turn_div_order(&g, &own, &enemy, None, None, Some(order));
    match action_for(&actions, 1) {
        AiAction::Emplace { .. } => {}
        other => panic!("hold-back guns emplace as a fire base, got {other:?}"),
    }
    let mut maneuver = Planner::new(Side::Attacker, CombatTactic::Assault, 1);
    let actions = maneuver.plan_turn_div_order(&g, &own, &enemy, None, None, Some(order));
    assert!(
        matches!(action_for(&actions, 1), AiAction::MoveUnit { .. }),
        "maneuver guns still creep: {:?}",
        action_for(&actions, 1)
    );
}

#[test]
fn division_order_fights_through_an_adjacent_blocker() {
    let g = grid(16, 16);
    let mut attacker = unit(1, UnitType::Infantry, Side::Attacker, 4, 4);
    attacker.soft_attack = 5.0;
    let mut blocker = unit(10, UnitType::MediumArmor, Side::Defender, 5, 4);
    blocker.defense = 200.0;
    let seize = HexCoord::new(10, 8);
    let with_order = Planner::new(Side::Attacker, CombatTactic::Assault, 1)
        .plan_turn_div_order(
            &g,
            &[attacker.clone()],
            &[blocker.clone()],
            None,
            None,
            Some(DivOrderTarget::Seize { hex: seize }),
        );
    match action_for(&with_order, 1) {
        AiAction::Assault { target_id, .. } => assert_eq!(*target_id, blocker.id),
        other => panic!("commanded battalion in contact must assault the blocker, got {other:?}"),
    }
    let without_order = Planner::new(Side::Attacker, CombatTactic::Assault, 1)
        .plan_turn_div_order(
            &g,
            &[attacker.clone()],
            &[blocker.clone()],
            None,
            None,
            None,
        );
    assert!(
        !matches!(action_for(&without_order, 1), AiAction::Assault { .. }),
        "doctrine refusal must stand without an order: {:?}",
        action_for(&without_order, 1)
    );
}

#[test]
fn engage_order_strikes_the_quarry_despite_hopeless_odds() {
    let g = grid(16, 16);
    let mut attacker = unit(1, UnitType::Infantry, Side::Attacker, 4, 4);
    attacker.soft_attack = 5.0;
    let mut quarry = unit(10, UnitType::MediumArmor, Side::Defender, 5, 4);
    quarry.defense = 200.0;
    let order = DivOrderTarget::Engage {
        unit: quarry.id,
        last_pos: quarry.position,
    };
    let actions = Planner::new(Side::Attacker, CombatTactic::Assault, 1)
        .plan_turn_div_order(&g, &[attacker], &[quarry.clone()], None, None, Some(order));
    match action_for(&actions, 1) {
        AiAction::Assault { target_id, .. } => assert_eq!(*target_id, quarry.id),
        other => panic!("engage strikes its quarry when adjacent, got {other:?}"),
    }
}

#[test]
fn passive_friendly_blocks_the_corridor_forcing_a_detour() {
    let mut g = grid(20, 20);
    for r in 2..18 {
        if r == 10 {
            continue;
        }
        let h = HexCoord::new(6, r);
        g.set_terrain(h, Terrain::Water);
        g.cell_mut(h).unwrap().is_passable = false;
    }
    let gap = HexCoord::new(6, 10);
    let own = vec![unit(1, UnitType::Infantry, Side::Attacker, 2, 10)];
    let passive = vec![unit(2, UnitType::Infantry, Side::Attacker, 6, 10)];
    let enemy: Vec<Battalion> = Vec::new();
    let intel: Vec<HexCoord> = (9..12).map(|r| HexCoord::new(12, r)).collect();

    let mut ai = Planner::new(Side::Attacker, CombatTactic::Assault, 1);
    let actions = ai.plan_turn_flags(&g, &own, &enemy, Some(&intel), None, None);
    let path = match action_for(&actions, 1) {
        AiAction::MoveUnit { path, .. } => path.clone(),
        other => panic!("blind march must move, got {other:?}"),
    };
    assert!(
        path.contains(&gap),
        "control: the open corridor is used, got {path:?}"
    );

    let mut ai = Planner::new(Side::Attacker, CombatTactic::Assault, 1);
    let actions = ai.plan_turn_flags(&g, &own, &enemy, Some(&intel), None, Some(&passive));
    let path = match action_for(&actions, 1) {
        AiAction::MoveUnit { path, .. } => path.clone(),
        other => panic!("blind march must still move (detour), got {other:?}"),
    };
    assert!(
        !path.contains(&gap),
        "the passive friendly's hex blocks pathing: the march must detour, got {path:?}"
    );
}

#[test]
fn passive_friendly_counts_toward_the_local_odds_gate() {
    let g = grid(20, 20);
    let mut line_inf = |id: usize, side: Side, q: i32, r: i32| {
        let mut u = unit(id, UnitType::Infantry, side, q, r);
        u.breakthrough = 40.0;
        u
    };
    let own = vec![line_inf(1, Side::Attacker, 10, 9)];
    let passive = vec![line_inf(2, Side::Attacker, 9, 10)];
    let enemy = vec![
        line_inf(10, Side::Defender, 10, 10),
        line_inf(11, Side::Defender, 10, 11),
        line_inf(12, Side::Defender, 11, 10),
    ];

    let mut ai = Planner::new(Side::Attacker, CombatTactic::Assault, 1);
    let actions = ai.plan_turn_flags(&g, &own, &enemy, None, None, None);
    assert!(
        !matches!(action_for(&actions, 1), AiAction::Assault { .. }),
        "1v3 must be refused by the local odds gate: {:?}",
        action_for(&actions, 1)
    );

    let mut ai = Planner::new(Side::Attacker, CombatTactic::Assault, 1);
    let actions = ai.plan_turn_flags(&g, &own, &enemy, None, None, Some(&passive));
    match action_for(&actions, 1) {
        AiAction::Assault { target_id, .. } => assert_eq!(*target_id, 10),
        other => panic!("passive friend must tip the local odds, got {other:?}"),
    }
}

#[test]
fn passive_friendlies_never_receive_actions() {
    let g = grid(20, 20);
    let own = vec![
        unit(1, UnitType::Infantry, Side::Attacker, 4, 4),
        unit(2, UnitType::ArtilleryBrigade, Side::Attacker, 4, 6),
    ];
    let passive = vec![
        unit(7, UnitType::Infantry, Side::Attacker, 5, 4),
        unit(8, UnitType::MediumArmor, Side::Attacker, 5, 6),
        unit(9, UnitType::Recon, Side::Attacker, 3, 5),
    ];
    let enemy = vec![
        unit(10, UnitType::Infantry, Side::Defender, 6, 4),
        unit(11, UnitType::Infantry, Side::Defender, 6, 6),
    ];
    let mut ai = Planner::new(Side::Attacker, CombatTactic::Assault, 1);
    let actions = ai.plan_turn_flags(&g, &own, &enemy, None, None, Some(&passive));
    assert!(matches!(actions.last(), Some(AiAction::EndTurn)));
    let actor_id = |a: &AiAction| -> Option<usize> {
        match a {
            AiAction::MoveUnit { unit_id, .. }
            | AiAction::Hold { unit_id }
            | AiAction::Emplace { unit_id }
            | AiAction::Limber { unit_id }
            | AiAction::Retreat { unit_id } => Some(*unit_id),
            AiAction::Assault { attacker_id, .. }
            | AiAction::FireSupport { attacker_id, .. } => Some(*attacker_id),
            AiAction::EndTurn => None,
        }
    };
    for a in &actions {
        if let Some(id) = actor_id(a) {
            assert!(
                !passive.iter().any(|p| p.id == id),
                "passive unit {id} must never receive an action: {a:?}"
            );
        }
    }
    for id in [1, 2] {
        assert!(
            actions.iter().filter_map(actor_id).any(|a| a == id),
            "own unit {id} got no action: {actions:?}"
        );
    }
}

#[test]
fn passive_friendlies_count_toward_the_global_force_ratio() {
    let enemy: Vec<Battalion> = (0..6)
        .map(|i| unit(10 + i, UnitType::Infantry, Side::Defender, 10, i as i32))
        .collect();
    let own = vec![unit(1, UnitType::Infantry, Side::Attacker, 2, 2)];
    let passive: Vec<Battalion> = (0..4)
        .map(|i| unit(2 + i, UnitType::Infantry, Side::Attacker, 3, i as i32))
        .collect();
    let ai = Planner::new(Side::Attacker, CombatTactic::Assault, 1);
    assert_eq!(ai.select_objective(&own, &enemy), StrategicObjective::Hold);
    let mut merged = own.clone();
    merged.extend(passive.iter().cloned());
    assert_eq!(
        ai.select_objective(&merged, &enemy),
        StrategicObjective::PushCenter
    );
}

#[test]
fn advance_keeps_standing_destination_when_goal_shifts_within_hysteresis() {
    let g = grid(24, 24);
    let mut own = vec![unit(1, UnitType::Infantry, Side::Attacker, 8, 8)];
    own[0].move_order = Some(MoveOrder {
        path: vec![HexCoord::new(8, 9), HexCoord::new(8, 10)],
        hours: 0.1,
    });
    let intel = vec![HexCoord::new(8, 12), HexCoord::new(9, 12), HexCoord::new(7, 13)];
    let mut ai = Planner::new(Side::Attacker, CombatTactic::Assault, 1);
    let actions = ai.plan_turn_div_order(&g, &own, &[], Some(&intel), None, None);
    match action_for(&actions, 1) {
        AiAction::MoveUnit { path, .. } => assert_eq!(
            *path.last().unwrap(),
            HexCoord::new(8, 10),
            "standing destination kept while the goal stays in the neighbourhood"
        ),
        other => panic!("expected the march to continue, got {other:?}"),
    }
}

#[test]
fn at_gun_precision_fires_but_never_blind_bombards() {
    let g = grid(24, 24);
    let mut own = vec![unit(1, UnitType::AntiTankBrigade, Side::Attacker, 8, 8)];
    own[0].is_emplaced = true;
    let enemy = vec![unit(50, UnitType::Infantry, Side::Defender, 8, 10)];
    let mut ai = Planner::new(Side::Attacker, CombatTactic::Assault, 1);
    let actions = ai.plan_turn_div_order(&g, &own, &enemy, None, None, None);
    assert!(
        matches!(action_for(&actions, 1), AiAction::FireSupport { .. }),
        "AT gun precise-fires at a target in range: {:?}",
        action_for(&actions, 1)
    );

    let enemy_far = vec![unit(50, UnitType::Infantry, Side::Defender, 8, 22)];
    let intel: Vec<HexCoord> = enemy_far.iter().map(|e| e.position).collect();
    let actions = ai.plan_turn_div_order(&g, &own, &enemy_far, Some(&intel), None, None);
    assert!(
        !matches!(action_for(&actions, 1), AiAction::FireSupport { .. }),
        "AT guns never blind-bombard: {:?}",
        action_for(&actions, 1)
    );
}

#[test]
fn friendly_held_goal_queues_at_the_edge() {
    let g = grid(24, 24);
    let own = vec![
        unit(1, UnitType::Infantry, Side::Attacker, 8, 8),
        unit(2, UnitType::Infantry, Side::Attacker, 8, 14),
    ];
    let goal = HexCoord::new(8, 14);
    let intel = vec![goal];
    let mut ai = Planner::new(Side::Attacker, CombatTactic::Assault, 1);
    let actions = ai.plan_turn_div_order(&g, &own, &[], Some(&intel), None, None);
    match action_for(&actions, 1) {
        AiAction::MoveUnit { path, .. } => {
            let dest = *path.last().unwrap();
            assert_ne!(dest, goal, "never book a path into a friendly-held goal");
            assert!(
                dest.distance(goal) <= 1,
                "queue at the goal's edge: {dest:?}"
            );
            assert!(
                dest.distance(goal) < own[0].position.distance(goal),
                "the march must make progress toward the goal: {dest:?}"
            );
        }
        other => panic!("friendly-held goal must not freeze the march: {other:?}"),
    }
}

#[test]
fn enemy_held_goal_keeps_marching_into_contact() {
    let g = grid(24, 24);
    let own = vec![unit(1, UnitType::Infantry, Side::Attacker, 8, 8)];
    let enemy = vec![unit(10, UnitType::Infantry, Side::Defender, 8, 12)];
    let mut ai = Planner::new(Side::Attacker, CombatTactic::Assault, 1);
    let actions = ai.plan_turn_div_order(&g, &own, &enemy, None, None, None);
    match action_for(&actions, 1) {
        AiAction::MoveUnit { path, .. } => assert_eq!(
            *path.last().unwrap(),
            enemy[0].position,
            "march into the enemy-held hex (execution decides the stop)"
        ),
        other => panic!("expected the march into contact, got {other:?}"),
    }
}

// Marching, turn after turn.

/// Half an hour of marching for every battalion under orders; a battalion
/// waits before a hex that is held.
fn advance_move_orders(g: &Ground, own: &mut [Battalion]) {
    for i in 0..own.len() {
        let view = own.to_vec();
        let u = &mut own[i];
        let Some(order) = u.move_order.as_mut() else { continue };
        let next = order.path[0];
        let need = step_hours(g, next).unwrap();
        order.hours += 0.5;
        if order.hours >= need && !held(&view, u.id, next) {
            order.hours -= need;
            order.path.remove(0);
            u.position = next;
            if order.path.is_empty() {
                u.move_order = None;
            }
        }
    }
}

/// The standing orders along paths that are open now.
fn refresh_move_orders(g: &Ground, own: &mut [Battalion], all: &[Battalion]) {
    for i in 0..own.len() {
        let u = &mut own[i];
        let dest = u.move_order.as_ref().and_then(|o| o.path.last()).copied();
        if let Some((path, _)) = dest.and_then(|d| find_path(g, u, all, d)) {
            if !path.is_empty() {
                u.move_order.as_mut().unwrap().path = path;
            }
        }
    }
}

/// Takes up the marches of a plan; a march to the same place goes on.
fn take_up(own: &mut [Battalion], actions: &[AiAction]) {
    for a in actions {
        if let AiAction::MoveUnit { unit_id, path } = a {
            let u = own.iter_mut().find(|u| u.id == *unit_id).unwrap();
            match &u.move_order {
                Some(o) if o.path.last() == path.last() => {}
                _ => u.move_order = Some(MoveOrder { path: path.clone(), hours: 0.0 }),
            }
        }
    }
}

fn blob() -> Vec<Battalion> {
    [(8, 8), (9, 8), (9, 9), (8, 9), (7, 9), (7, 8), (8, 7)]
        .iter()
        .enumerate()
        .map(|(i, (q, r))| unit(1 + i, UnitType::Infantry, Side::Attacker, *q, *r))
        .collect()
}

fn far_line() -> Vec<Battalion> {
    vec![
        unit(50, UnitType::Infantry, Side::Defender, 8, 26),
        unit(51, UnitType::Infantry, Side::Defender, 9, 27),
        unit(52, UnitType::Infantry, Side::Defender, 7, 27),
    ]
}

/// The longest run of turns in which the hours of an order did not change.
fn longest_frozen_run(hours: &[f32]) -> usize {
    let mut best = 0usize;
    let mut cur = 0usize;
    let mut prev: Option<f32> = None;
    for &h in hours {
        if h >= 0.0 && prev == Some(h) {
            cur += 1;
            best = best.max(cur);
        } else if h >= 0.0 {
            cur = 1;
        } else {
            cur = 0;
        }
        prev = Some(h);
    }
    best
}

#[test]
fn dense_advance_blob_no_stalled_battalions_repro() {
    let g = grid(40, 40);
    let mut own = blob();
    let enemy = far_line();
    let intel: Vec<HexCoord> = enemy.iter().map(|e| e.position).collect();
    let start: Vec<HexCoord> = own.iter().map(|u| u.position).collect();
    let mut ai = Planner::new(Side::Attacker, CombatTactic::Assault, 7);
    for _turn in 0..30 {
        let actions = ai.plan_turn_div_order(&g, &own, &enemy, Some(&intel), None, None);
        take_up(&mut own, &actions);
        advance_move_orders(&g, &mut own);
    }
    for u in &own {
        let d = start[u.id - 1].distance(u.position);
        assert!(d >= 2, "unit {} stalled at {:?}: {} hexes in 30 turns", u.id, u.position, d);
    }
}

#[test]
fn dense_advance_progress_tracking_probe() {
    let g = grid(40, 40);
    let mut own = blob();
    let enemy = far_line();
    let intel: Vec<HexCoord> = enemy.iter().map(|e| e.position).collect();
    let mut ai = Planner::new(Side::Attacker, CombatTactic::Assault, 7);
    let mut hours_log: Vec<Vec<f32>> = vec![vec![]; own.len() + 1];
    for _turn in 0..40 {
        let actions = ai.plan_turn_div_order(&g, &own, &enemy, Some(&intel), None, None);
        take_up(&mut own, &actions);
        let view = own.clone();
        refresh_move_orders(&g, &mut own, &view);
        advance_move_orders(&g, &mut own);
        for u in &own {
            hours_log[u.id].push(
                u.move_order.as_ref().map(|o| (o.hours * 1000.0).round() / 1000.0).unwrap_or(-1.0),
            );
        }
    }
    for u in &own {
        let frozen = longest_frozen_run(&hours_log[u.id]);
        assert!(
            frozen <= 3,
            "unit {} progress frozen for {frozen} turns: {:?}",
            u.id,
            hours_log[u.id]
        );
    }
}

// What the planner asks.

fn asks(ai: &Planner, kind: fn(&Query) -> bool) -> bool {
    ai.asked.iter().any(kind)
}

#[test]
fn a_plan_asks_for_what_it_needs_and_only_once() {
    let g = grid(12, 12);
    let own = vec![unit(1, UnitType::Infantry, Side::Attacker, 2, 2)];
    let enemy = vec![unit(10, UnitType::Infantry, Side::Defender, 2, 6)];
    let ai = Planner::new(Side::Attacker, CombatTactic::Assault, 1).ai;
    let empty = Book { routes: Vec::new(), facts: Vec::new() };
    let (map, out) = (g.map(), outlook(&own, &enemy));
    let (units, foes) = (battalion_units(&own), battalion_units(&enemy));
    let first = ai.plan_turn(&map, &units, &foes, &out, &empty);
    let dest = HexCoord::new(2, 6);
    assert_eq!(first, Err(Query::Route { who: 0, dest }));
    let path = vec![HexCoord::new(2, 3), HexCoord::new(2, 4)];
    let told = Book {
        routes: vec![Route { who: 0, dest, path: path.clone(), cost: 5 }],
        facts: Vec::new(),
    };
    let plan = ai.plan_turn(&map, &units, &foes, &out, &told);
    assert_eq!(plan, Ok(vec![AiAction::MoveUnit { unit_id: 1, path }, AiAction::EndTurn]));
}

#[test]
fn an_answer_of_the_wrong_kind_is_none() {
    let g = grid(12, 12);
    let own = vec![unit(1, UnitType::Infantry, Side::Attacker, 5, 5)];
    let enemy = vec![unit(10, UnitType::Infantry, Side::Defender, 5, 6)];
    let ai = Planner::new(Side::Attacker, CombatTactic::Assault, 1).ai;
    let (map, out) = (g.map(), outlook(&own, &enemy));
    let (units, foes) = (battalion_units(&own), battalion_units(&enemy));
    let q = Query::Trade { who: 0, foe: 0 };
    for fact in [Fact::Number(3), Fact::Pair(1, 2), Fact::Hex(HexCoord::new(1, 1))] {
        let book = Book { routes: Vec::new(), facts: vec![(q, fact)] };
        assert_eq!(ai.plan_turn(&map, &units, &foes, &out, &book), Err(q));
    }
    let book = Book { routes: Vec::new(), facts: vec![(q, Fact::No)] };
    let plan = ai.plan_turn(&map, &units, &foes, &out, &book);
    assert_eq!(plan, Ok(vec![AiAction::Hold { unit_id: 1 }, AiAction::EndTurn]));
}

#[test]
fn trades_draws_and_steps_are_asked_for() {
    let g = grid(12, 12);
    let mut ai = Planner::new(Side::Attacker, CombatTactic::Assault, 3);
    let mut weak = unit(10, UnitType::Infantry, Side::Defender, 5, 6);
    weak.org = 4.0;
    let mut twin = unit(11, UnitType::Infantry, Side::Defender, 4, 5);
    twin.org = 4.0;
    let own = vec![unit(1, UnitType::Infantry, Side::Attacker, 5, 5)];
    let plan = ai.plan_turn(&g, &own, &[weak, twin]);
    assert!(matches!(plan[0], AiAction::Assault { .. }));
    assert!(asks(&ai, |q| matches!(q, Query::Trade { .. })));
    assert!(asks(&ai, |q| matches!(q, Query::Draw { below: 2, .. })), "two are as good");
    let mut back = Planner::new(Side::Defender, CombatTactic::Delay, 3);
    back.plan_turn(
        &g,
        &[unit(1, UnitType::Infantry, Side::Defender, 5, 5)],
        &[unit(10, UnitType::Infantry, Side::Attacker, 5, 4)],
    );
    assert!(asks(&back, |q| matches!(q, Query::Step { score: StepScore::FallBack, .. })));
}

#[test]
fn batteries_ask_for_volleys_and_missions() {
    let g = grid(12, 12);
    let mut gun = unit(1, UnitType::ArtilleryBrigade, Side::Attacker, 2, 2);
    gun.is_emplaced = true;
    let mut nearly = unit(11, UnitType::Infantry, Side::Defender, 2, 5);
    nearly.defense = 40.001;
    let enemy = vec![unit(10, UnitType::Infantry, Side::Defender, 5, 2), nearly];
    let mut card = Planner::new(Side::Attacker, CombatTactic::Assault, 1);
    card.plan_turn(&g, &[gun.clone()], &enemy);
    assert!(asks(&card, |q| matches!(q, Query::Volley { .. })));
    let mut plain = Planner::new(Side::Attacker, CombatTactic::Blitz, 1);
    plain.plan_turn(&g, &[gun], &enemy);
    assert!(asks(&plain, |q| matches!(q, Query::Barrage { full: true, .. })));
    assert!(asks(&plain, |q| matches!(q, Query::Even { .. })));
}

#[test]
fn flanks_and_screens_ask_for_their_ground() {
    let g = grid(16, 12);
    let mut pincer = Planner::new(Side::Attacker, CombatTactic::Encirclement, 1);
    let own = vec![unit(1, UnitType::MediumArmor, Side::Attacker, 3, 5)];
    let enemy = vec![unit(10, UnitType::Infantry, Side::Defender, 10, 5)];
    let plan = pincer.plan_turn(&g, &own, &enemy);
    assert!(asks(&pincer, |q| matches!(q, Query::Waypoint { .. })));
    assert_ne!(move_dest(action_for(&plan, 1)), HexCoord::new(10, 5));
    let mut screen = Planner::new(Side::Defender, CombatTactic::ElasticDefense, 1);
    screen.plan_turn(
        &g,
        &[unit(1, UnitType::Infantry, Side::Defender, 10, 7)],
        &[
            unit(10, UnitType::Infantry, Side::Attacker, 7, 8),
            unit(11, UnitType::Infantry, Side::Attacker, 7, 9),
        ],
    );
    assert!(asks(&screen, |q| matches!(q, Query::Shielded { .. })));
}

#[test]
fn flags_and_headquarters_ask_for_shares_and_centres() {
    let g = grid(24, 24);
    let zone = vec![HexCoord::new(10, 10), HexCoord::new(11, 10)];
    let flags = flag_state(12, HexCoord::new(10, 10), &zone);
    let mut ai = Planner::new(Side::Defender, CombatTactic::ElasticDefense, 1);
    let mut inf = unit(2, UnitType::Infantry, Side::Defender, 15, 15);
    inf.division = "D".to_string();
    let own = vec![inf, hq(3, Side::Defender, 2, 2, "D")];
    let enemy = vec![unit(10, UnitType::Infantry, Side::Attacker, 20, 20)];
    ai.plan_turn_flags(&g, &own, &enemy, None, Some(&flags), None);
    assert!(asks(&ai, |q| matches!(q, Query::Share { pool: 1, progress: 12, total: 12 })));
    assert!(asks(&ai, |q| matches!(q, Query::NearestHex { flag: 0, who: 0 })));
    assert!(asks(&ai, |q| matches!(q, Query::OffCentre { hq: 1, member: 0 })));
}

// What holds of every plan.

fn crowd() -> (Vec<Battalion>, Vec<Battalion>) {
    let own = vec![
        unit(1, UnitType::Infantry, Side::Attacker, 3, 3),
        unit(2, UnitType::Infantry, Side::Attacker, 4, 3),
        unit(3, UnitType::MediumArmor, Side::Attacker, 3, 4),
        unit(4, UnitType::ArtilleryBrigade, Side::Attacker, 2, 4),
        unit(5, UnitType::Recon, Side::Attacker, 5, 2),
        unit(6, UnitType::SupportCompany, Side::Attacker, 2, 2),
        unit(7, UnitType::AntiTankBrigade, Side::Attacker, 2, 5),
        unit(8, UnitType::RocketArtillery, Side::Attacker, 1, 5),
    ];
    let enemy = vec![
        unit(20, UnitType::Infantry, Side::Defender, 5, 3),
        unit(21, UnitType::Infantry, Side::Defender, 8, 4),
        unit(22, UnitType::MediumArmor, Side::Defender, 7, 6),
    ];
    (own, enemy)
}

const CARDS: [CombatTactic; 16] = [
    CombatTactic::Blitz,
    CombatTactic::ElasticDefense,
    CombatTactic::OverwhelmingFire,
    CombatTactic::InfiltrationAssault,
    CombatTactic::MassCharge,
    CombatTactic::GuerrillaTactics,
    CombatTactic::TacticalWithdrawal,
    CombatTactic::Encirclement,
    CombatTactic::Counterattack,
    CombatTactic::Ambush,
    CombatTactic::RiverDefense,
    CombatTactic::UrbanDefense,
    CombatTactic::Delay,
    CombatTactic::Assault,
    CombatTactic::RiverAssault,
    CombatTactic::Default,
];

#[test]
fn under_every_card_each_battalion_has_one_command_and_each_hex_one_claim() {
    let g = grid(14, 12);
    let (own, enemy) = crowd();
    for card in CARDS {
        let plan = Planner::new(Side::Attacker, card, 5).plan_turn(&g, &own, &enemy);
        let actors: Vec<Option<usize>> = plan.iter().map(actor).collect();
        let mut wanted: Vec<Option<usize>> = own.iter().map(|u| Some(u.id)).collect();
        wanted.push(None);
        assert_eq!(actors, wanted, "{card:?}");
        let mut dests: HashSet<HexCoord> = HashSet::new();
        for a in &plan {
            if let AiAction::MoveUnit { path, .. } = a {
                assert!(dests.insert(*path.last().unwrap()), "{card:?}: {plan:?}");
            }
        }
    }
}

#[test]
fn under_every_card_assaults_are_next_door_and_fire_is_in_range() {
    let g = grid(14, 12);
    let (own, enemy) = crowd();
    for card in CARDS {
        let plan = Planner::new(Side::Attacker, card, 5).plan_turn(&g, &own, &enemy);
        for a in &plan {
            match a {
                AiAction::Assault { attacker_id, target_id } => {
                    let u = own.iter().find(|u| u.id == *attacker_id).unwrap();
                    let e = enemy.iter().find(|e| e.id == *target_id).unwrap();
                    assert_eq!(u.position.distance(e.position), 1, "{card:?}");
                }
                AiAction::FireSupport { attacker_id, target_hex } => {
                    let u = own.iter().find(|u| u.id == *attacker_id).unwrap();
                    assert!(u.position.distance(*target_hex) <= u.attack_range, "{card:?}");
                }
                _ => {}
            }
        }
    }
}

#[test]
fn some_cards_never_assault() {
    let g = grid(12, 12);
    let mut weak = unit(10, UnitType::Infantry, Side::Attacker, 5, 6);
    weak.org = 2.0;
    let own = vec![unit(1, UnitType::Infantry, Side::Defender, 5, 5)];
    for card in [
        CombatTactic::TacticalWithdrawal,
        CombatTactic::OverwhelmingFire,
        CombatTactic::Delay,
    ] {
        let plan = Planner::new(Side::Defender, card, 5).plan_turn(&g, &own, &[weak.clone()]);
        assert!(!matches!(plan[0], AiAction::Assault { .. }), "{card:?}: {plan:?}");
    }
    let plan = Planner::new(Side::Defender, CombatTactic::Default, 5).plan_turn(&g, &own, &[weak]);
    assert!(matches!(plan[0], AiAction::Assault { target_id: 10, .. }));
}

#[test]
fn a_launcher_does_not_fire_on_its_own_men() {
    let g = grid(12, 12);
    let rkt = unit(1, UnitType::RocketArtillery, Side::Defender, 4, 4);
    let enemy = vec![unit(10, UnitType::Infantry, Side::Attacker, 4, 8)];
    let near = unit(2, UnitType::Infantry, Side::Defender, 5, 8);
    let far = unit(2, UnitType::Infantry, Side::Defender, 9, 2);
    let mut ai = Planner::new(Side::Defender, CombatTactic::Default, 5);
    let plan = ai.plan_turn(&g, &[rkt.clone(), near.clone()], &enemy);
    assert!(!matches!(action_for(&plan, 1), AiAction::FireSupport { .. }), "{plan:?}");
    let plan = ai.plan_turn(&g, &[rkt.clone(), far], &enemy);
    assert!(matches!(action_for(&plan, 1), AiAction::FireSupport { .. }), "{plan:?}");
    let plan = ai.plan_turn_flags(&g, &[rkt], &enemy, None, None, Some(&[near]));
    assert!(!matches!(action_for(&plan, 1), AiAction::FireSupport { .. }), "allies count too");
}

#[test]
fn a_worn_battalion_does_not_attack() {
    let g = grid(12, 12);
    let mut worn = unit(1, UnitType::Infantry, Side::Attacker, 5, 5);
    set_org_pct(&mut worn, 0.2);
    let mut weak = unit(10, UnitType::Infantry, Side::Defender, 5, 6);
    weak.org = 1.0;
    for card in CARDS {
        let plan = Planner::new(Side::Attacker, card, 5).plan_turn(&g, &[worn.clone()], &[weak.clone()]);
        assert!(!matches!(plan[0], AiAction::Assault { .. }), "{card:?}: {plan:?}");
    }
}

#[test]
fn nobody_left_means_nothing_but_the_end_of_the_turn() {
    let g = grid(6, 6);
    let mut routed = unit(1, UnitType::Infantry, Side::Attacker, 2, 2);
    routed.state = UnitState::Retreating;
    let mut ai = Planner::new(Side::Attacker, CombatTactic::Assault, 1);
    assert_eq!(ai.plan_turn(&g, &[], &[]), vec![AiAction::EndTurn]);
    assert_eq!(ai.plan_turn(&g, &[routed.clone()], &[]), vec![AiAction::EndTurn]);
    assert_eq!(ai.plan_turn_div_order(&g, &[routed], &[], None, None, None), vec![]);
}

#[test]
fn an_objective_is_a_zone_of_one_hex() {
    let g = grid(14, 14);
    let own = vec![unit(1, UnitType::Infantry, Side::Attacker, 2, 2)];
    let goal = HexCoord::new(11, 11);
    let mut ai = Planner::new(Side::Attacker, CombatTactic::Assault, 9);
    let toward = ai.plan_turn_toward(&g, &own, &[], Some(goal));
    let zone = ai.plan_turn_zone(&g, &own, &[], Some(&[goal]));
    assert_eq!(toward, zone);
    assert_eq!(move_dest(&toward[0]), goal);
    let nowhere = ai.plan_turn_toward(&g, &own, &[], None);
    assert_eq!(nowhere[0], AiAction::Hold { unit_id: 1 });
}

#[test]
fn an_order_goal_falls_back_on_the_point_when_its_area_is_taken() {
    let g = grid(16, 16);
    let point = HexCoord::new(8, 8);
    let mut own = vec![unit(1, UnitType::Infantry, Side::Attacker, 2, 8)];
    for (i, h) in point.hexes_in_range(2).into_iter().enumerate() {
        own.push(unit(10 + i, UnitType::Infantry, Side::Attacker, h.q, h.r));
    }
    for u in own.iter_mut().skip(1) {
        u.acted = true;
    }
    let mut ai = Planner::new(Side::Attacker, CombatTactic::Assault, 1);
    let order = Some(DivOrderTarget::Seize { hex: point });
    let plan = ai.plan_turn_div_order(&g, &own, &[], None, None, order);
    assert!(asks(&ai, |q| *q == Query::Route { who: 0, dest: HexCoord::new(8, 8) }));
    assert!(own[1..].iter().all(|u| matches!(action_for(&plan, u.id), AiAction::Hold { .. })));
}

#[test]
fn the_players_own_command_shields_a_battalion_that_has_acted() {
    let g = grid(12, 12);
    let mut own = vec![
        unit(1, UnitType::Infantry, Side::Attacker, 4, 4),
        unit(2, UnitType::Infantry, Side::Attacker, 5, 4),
    ];
    own[0].manual_override = true;
    own[0].acted = true;
    own[1].acted = true;
    let mut ai = Planner::new(Side::Attacker, CombatTactic::Assault, 1);
    let plan = ai.plan_turn_div_order(&g, &own, &[], None, None, None);
    assert_eq!(plan, vec![AiAction::Hold { unit_id: 2 }]);
    let whole = ai.plan_turn(&g, &own, &[]);
    assert_eq!(actor(&whole[0]), Some(1), "the whole side's planner knows no such shield");
}

#[test]
fn a_screen_on_its_ring_stays_and_one_off_it_does_not() {
    let mut g = grid(24, 24);
    for r in 0..24 {
        g.set_terrain(HexCoord::new(11, r), Terrain::River);
    }
    let anchor = HexCoord::new(10, 10);
    let flags = flag_state(6, anchor, &[anchor]);
    let far = vec![unit(10, UnitType::Infantry, Side::Attacker, 22, 22)];
    let mut ai = Planner::new(Side::Defender, CombatTactic::ElasticDefense, 1);
    let on_ring = vec![unit(1, UnitType::Infantry, Side::Defender, 12, 10)];
    let plan = ai.plan_turn_flags(&g, &on_ring, &far, None, Some(&flags), None);
    assert_eq!(plan[0], AiAction::Hold { unit_id: 1 }, "behind the river, two hexes off");
    let near = vec![unit(10, UnitType::Infantry, Side::Attacker, 15, 12)];
    let off_ring = vec![unit(1, UnitType::Infantry, Side::Defender, 15, 10)];
    let plan = ai.plan_turn_flags(&g, &off_ring, &near, None, Some(&flags), None);
    let dest = move_dest(&plan[0]);
    assert_eq!(dest.distance(anchor), 2, "an enemy two hexes off makes no screen");
    assert!(dest.q >= 12);
}

#[test]
fn volleys_are_made_up_of_all_that_can_join() {
    let g = grid(12, 12);
    let mut own = vec![
        unit(1, UnitType::Infantry, Side::Attacker, 5, 5),
        unit(2, UnitType::Infantry, Side::Attacker, 6, 4),
        unit(3, UnitType::Infantry, Side::Attacker, 6, 5),
        unit(4, UnitType::Infantry, Side::Attacker, 9, 9),
        unit(5, UnitType::RocketArtillery, Side::Attacker, 4, 6),
    ];
    own[1].acted = true;
    own[2].org = 0.0;
    let passive = vec![
        unit(6, UnitType::Infantry, Side::Attacker, 5, 7),
        unit(7, UnitType::Infantry, Side::Attacker, 1, 1),
    ];
    let enemy = vec![unit(20, UnitType::Infantry, Side::Defender, 5, 6)];
    let ai = Planner::new(Side::Attacker, CombatTactic::Assault, 1).ai;
    let (map, out) = (g.map(), outlook(&own, &enemy));
    let (spots, flags): (Vec<Spot>, Vec<FlagZone>) = (Vec::new(), Vec::new());
    let mut units = battalion_units(&own);
    units[1].can_assault = true;
    units[1].position = HexCoord::new(6, 5);
    let t = ai.survey(
        &map,
        &units,
        &battalion_units(&enemy),
        &spots,
        &flags,
        &battalion_units(&passive),
        &Vec::new(),
        &out,
    );
    assert_eq!(assault_pool(&t, 0, 0), vec![1, 6], "neither the spent nor the broken join");
    assert_eq!(imagined_pool(&t, 0), vec![1, 2, 6], "the spent could have");
}

#[test]
fn a_division_surveys_what_it_senses() {
    let g = grid(30, 30);
    let own = vec![unit(1, UnitType::Infantry, Side::Attacker, 4, 4)];
    let enemy = vec![
        unit(10, UnitType::Infantry, Side::Defender, 4, 16),
        unit(11, UnitType::Infantry, Side::Defender, 4, 14),
    ];
    let ai = Planner::new(Side::Attacker, CombatTactic::Assault, 1).ai;
    let (map, out) = (g.map(), outlook(&own, &enemy));
    let (spots, flags): (Vec<Spot>, Vec<FlagZone>) = (Vec::new(), Vec::new());
    let (units, foes) = (battalion_units(&own), battalion_units(&enemy));
    let t = ai.survey_division(&map, &units, &foes, &spots, &flags, None, &out);
    assert_eq!(t.enemy.iter().map(|e| e.id).collect::<Vec<_>>(), vec![11]);
    assert_eq!(t.all.iter().map(|e| e.id).collect::<Vec<_>>(), vec![1, 11, 10]);
}

#[test]
fn an_order_to_a_flag_is_for_all_who_share_the_id() {
    let g = grid(24, 24);
    let zone = vec![HexCoord::new(9, 9), HexCoord::new(10, 10)];
    let flags = flag_state(9, HexCoord::new(10, 10), &zone);
    let enemy = vec![unit(10, UnitType::Infantry, Side::Attacker, 22, 22)];
    let first = HexCoord::new(14, 14);
    for acted in [false, true] {
        let mut ai = Planner::new(Side::Defender, CombatTactic::Counterattack, 1);
        let mut own = vec![
            unit(1, UnitType::Infantry, Side::Defender, 14, 14),
            unit(1, UnitType::Infantry, Side::Defender, 18, 17),
        ];
        own[0].acted = acted;
        let actions = ai.plan_turn_flags(&g, &own, &enemy, None, Some(&flags), None);
        match &actions[1] {
            AiAction::MoveUnit { path, .. } => {
                assert_eq!(path[0].distance(first), 1, "the way of the first of the two");
                assert_eq!(path.last(), Some(&HexCoord::new(10, 10)));
            }
            other => panic!("sent into the zone, got {other:?}"),
        }
        if acted {
            assert_eq!(actions[0], AiAction::Hold { unit_id: 1 });
        } else {
            assert_eq!(actions[0], actions[1]);
        }
    }
}

#[test]
fn a_reloading_launcher_creeps_and_does_not_fire() {
    let g = grid(16, 8);
    let intel = vec![HexCoord::new(8, 2)];
    let plan = |cooldown: i64| {
        let mut ai = Planner::new(Side::Attacker, CombatTactic::Assault, 3);
        let mut launcher = unit(1, UnitType::RocketArtillery, Side::Attacker, 2, 2);
        launcher.fire_cooldown = cooldown;
        ai.plan_turn_zone(&g, &[launcher], &[], Some(&intel))
    };
    let fire = AiAction::FireSupport { attacker_id: 1, target_hex: intel[0] };
    assert_eq!(plan(0), vec![fire, AiAction::EndTurn]);
    for cooldown in [1, 4] {
        assert_eq!(move_dest(action_for(&plan(cooldown), 1)), intel[0]);
    }
}
