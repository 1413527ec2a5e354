//! Fire phases, routs and turn ends on concrete battles.
//!
//! The battles are fought over a small damage model: it reckons the strikes
//! and replies that a fire phase comes to, and so tells the engine what it
//! asks until the phase is resolved.
use tactical::combat::{
    apply_oob_leaving as leave, AttritionRates, CombatEngine, DamageReport, EncirclementLevel,
    FireQuestion, FireReports, Rest,
};
use tactical::fire::{
    counter_fire, group_volleys, AttackOrder, AttackTarget, CombatParams, FirePlan, Share,
};
use tactical::grid::{Cell, HexGrid};
use tactical::hex::HexCoord;
use tactical::retreat::{retreat_step as step_back, retreat_step_zoned as step_back_zoned};
use tactical::settle::{Answers, LaneDamage, Missing, Shake, Toll};
use tactical::unit::{offboard, BattalionUnit, Condition, Side, UnitKind, UnitState};

// The ground.

#[derive(Debug, Clone, Copy, PartialEq, Eq)]
enum Terrain {
    Plains,
    River,
    Water,
}

#[derive(Debug, Clone, Copy)]
struct Land {
    terrain: Terrain,
    elevation: i64,
    out_of_bounds: bool,
}

struct Ground {
    width: i32,
    height: i32,
    lands: Vec<Land>,
}

fn cover_percent(t: Terrain) -> f32 {
    if t == Terrain::River {
        -0.5
    } else {
        0.0
    }
}

impl Ground {
    fn at(&self, h: HexCoord) -> Option<usize> {
        let inside = 0 <= h.q && h.q < self.width && 0 <= h.r && h.r < self.height;
        inside.then_some((h.r * self.width + h.q) as usize)
    }

    fn cell(&self, h: HexCoord) -> Option<Land> {
        self.at(h).map(|i| self.lands[i])
    }

    fn cell_mut(&mut self, h: HexCoord) -> Option<&mut Land> {
        self.at(h).map(|i| &mut self.lands[i])
    }

    fn set_terrain(&mut self, h: HexCoord, t: Terrain) {
        let land = self.cell_mut(h).unwrap();
        land.terrain = t;
        if t == Terrain::River {
            land.elevation = -1;
        }
    }

    fn elevation(&self, h: HexCoord) -> i64 {
        self.cell(h).map(|c| c.elevation).unwrap_or(0)
    }

    fn open(&self, h: HexCoord) -> bool {
        self.cell(h).map(|c| c.terrain != Terrain::Water).unwrap_or(false)
    }

    fn map(&self) -> HexGrid {
        let fill = Cell {
            passable: true,
            out_of_bounds: false,
            river: false,
            urban: false,
            elevation: 0,
            cover: 0,
        };
        let mut g = HexGrid::new(self.width as usize, self.height as usize, fill);
        for q in 0..self.width {
            for r in 0..self.height {
                let h = HexCoord::new(q, r);
                let land = self.cell(h).unwrap();
                g = g.with_cell(
                    h,
                    Cell {
                        passable: land.terrain != Terrain::Water,
                        out_of_bounds: land.out_of_bounds,
                        river: land.terrain == Terrain::River,
                        urban: false,
                        elevation: land.elevation,
                        cover: 0,
                    },
                );
            }
        }
        g
    }
}

fn grid(w: i32, h: i32) -> Ground {
    let land = Land { terrain: Terrain::Plains, elevation: 0, out_of_bounds: false };
    Ground { width: w, height: h, lands: vec![land; (w * h) as usize] }
}

fn set_elev(g: &mut Ground, q: i32, r: i32, e: i64) {
    g.cell_mut(HexCoord::new(q, r)).unwrap().elevation = e;
}

fn neighbors(h: HexCoord) -> Vec<HexCoord> {
    [(1, 0), (1, -1), (0, -1), (-1, 0), (-1, 1), (0, 1)]
        .iter()
        .map(|(q, r)| HexCoord::new(h.q + q, h.r + r))
        .collect()
}

/// The hexes strictly between two hexes.
fn between(a: HexCoord, b: HexCoord) -> Vec<HexCoord> {
    let n = a.distance(b);
    (1..n)
        .map(|i| {
            let t = i as f32 / n as f32;
            let (q, r) = (
                a.q as f32 + (b.q - a.q) as f32 * t,
                a.r as f32 + (b.r - a.r) as f32 * t,
            );
            HexCoord::new(q.round() as i32, r.round() as i32)
        })
        .collect()
}

fn line_of_sight(g: &Ground, a: HexCoord, b: HexCoord) -> bool {
    let top = g.elevation(a).max(g.elevation(b));
    between(a, b).into_iter().all(|h| g.elevation(h) <= top)
}

// The battalions.

#[derive(Debug, Clone, Copy, PartialEq, Eq)]
enum UnitType {
    Infantry,
    MediumArmor,
    AntiTankBrigade,
    ArtilleryBrigade,
    MotRocketArtillery,
    Headquarters,
}

#[derive(Debug, Clone)]
struct Battalion {
    id: usize,
    unit_type: UnitType,
    side: Side,
    position: HexCoord,
    state: UnitState,
    division: String,
    soft_attack: f32,
    hard_attack: f32,
    defense: f32,
    breakthrough: f32,
    piercing: f32,
    armor: f32,
    hardness: f32,
    max_org: f32,
    org: f32,
    max_strength: f32,
    strength: f32,
    attack_range: i64,
    acted: bool,
    shocked: bool,
    is_holding: bool,
    is_emplaced: bool,
    fire_cooldown: i64,
    oob_turns: u32,
    move_order: Option<HexCoord>,
}

impl Battalion {
    fn new(id: usize, ty: UnitType, side: Side, position: HexCoord) -> Battalion {
        let (org, strength, attack_range) = match ty {
            UnitType::Infantry => (60.0, 25.0, 1),
            UnitType::MediumArmor => (10.0, 2.0, 2),
            UnitType::AntiTankBrigade => (30.0, 4.0, 2),
            UnitType::ArtilleryBrigade => (30.0, 5.0, 9),
            UnitType::MotRocketArtillery => (30.0, 5.0, 9),
            UnitType::Headquarters => (20.0, 5.0, 1),
        };
        Battalion {
            id,
            unit_type: ty,
            side,
            position,
            state: UnitState::Active,
            division: String::new(),
            soft_attack: 0.0,
            hard_attack: 0.0,
            defense: 0.0,
            breakthrough: 0.0,
            piercing: 0.0,
            armor: 0.0,
            hardness: 0.0,
            max_org: org,
            org,
            max_strength: strength,
            strength,
            attack_range,
            acted: false,
            shocked: false,
            is_holding: false,
            is_emplaced: false,
            fire_cooldown: 0,
            oob_turns: 0,
            move_order: None,
        }
    }

    fn is_hq(&self) -> bool {
        self.unit_type == UnitType::Headquarters
    }

    fn is_rocket(&self) -> bool {
        self.unit_type == UnitType::MotRocketArtillery
    }

    fn is_indirect_artillery(&self) -> bool {
        self.is_rocket() || self.unit_type == UnitType::ArtilleryBrigade
    }

    fn requires_emplacement(&self) -> bool {
        matches!(self.unit_type, UnitType::ArtilleryBrigade | UnitType::AntiTankBrigade)
    }

    fn can_assault(&self) -> bool {
        !self.requires_emplacement() && !self.is_rocket() && !self.is_hq()
    }

    fn can_fire_support(&self) -> bool {
        self.battalion_unit().can_fire_support()
    }

    fn is_targetable(&self) -> bool {
        self.battalion_unit().is_targetable()
    }

    fn is_combat_effective(&self) -> bool {
        self.battalion_unit().is_combat_effective()
    }

    fn strength_ratio(&self) -> f32 {
        self.strength / self.max_strength
    }

    fn refresh_turn(&mut self) {
        self.acted = false;
        if self.fire_cooldown > 0 {
            self.fire_cooldown -= 1;
        }
    }

    fn condition(&self) -> Condition {
        Condition {
            org: self.org.to_bits(),
            org_ratio: (self.org / self.max_org).to_bits(),
            strength: self.strength.to_bits(),
            org_cents: (self.org * 100.0) as i64,
            strength_cents: (self.strength * 100.0) as i64,
            fit: self.org > 0.0 && self.strength > 0.0,
            present: self.strength > 0.0,
        }
    }

    fn battalion_unit(&self) -> BattalionUnit {
        BattalionUnit {
            id: self.id,
            division: division_number(&self.division),
            side: self.side,
            position: self.position,
            state: self.state,
            fit: false,
            present: false,
            kind: UnitKind {
                hq: self.is_hq(),
                armor: self.unit_type == UnitType::MediumArmor,
                recon: false,
                support_company: false,
                motorized: self.is_rocket(),
                indirect_artillery: self.is_indirect_artillery(),
                direct_gun: self.unit_type == UnitType::AntiTankBrigade,
                rocket: self.is_rocket(),
                anti_tank: self.unit_type == UnitType::AntiTankBrigade,
                anti_air: false,
                gun: self.unit_type == UnitType::AntiTankBrigade,
                towed: self.requires_emplacement(),
            },
            attack_range: self.attack_range,
            min_attack_range: if self.is_rocket() { 3 } else { 1 },
            org: 0,
            org_ratio: 0,
            strength: 0,
            org_cents: 0,
            strength_cents: 0,
            acted: self.acted,
            shocked: self.shocked,
            is_holding: self.is_holding,
            is_emplaced: self.is_emplaced,
            manual_override: false,
            undeployed: false,
            can_assault: self.can_assault(),
            can_attack_order: true,
            fire_support: self.is_indirect_artillery()
                && (!self.requires_emplacement() || self.is_emplaced),
            fire_cooldown: self.fire_cooldown,
            oob_turns: self.oob_turns,
            move_to: self.move_order,
        }
        .with_condition(self.condition())
    }

    fn take_over(&mut self, u: &BattalionUnit) {
        self.position = u.position;
        self.state = u.state;
        self.org = f32::from_bits(u.org);
        self.strength = f32::from_bits(u.strength);
        self.acted = u.acted;
        self.shocked = u.shocked;
        self.is_holding = u.is_holding;
        self.fire_cooldown = u.fire_cooldown;
        self.oob_turns = u.oob_turns;
        self.move_order = u.move_to;
    }
}

const DIVISIONS: [&str; 7] = ["", "A", "B", "Atk", "Def", "D", "E"];

fn division_number(name: &str) -> usize {
    DIVISIONS.iter().position(|d| *d == name).unwrap()
}

fn battalion_units(units: &[Battalion]) -> Vec<BattalionUnit> {
    units.iter().map(|u| u.battalion_unit()).collect()
}

fn take_over(units: &mut [Battalion], from: &[BattalionUnit]) {
    for (u, f) in units.iter_mut().zip(from) {
        u.take_over(f);
    }
}

fn inf(id: usize, side: Side, pos: HexCoord) -> Battalion {
    let mut u = Battalion::new(id, UnitType::Infantry, side, pos);
    u.soft_attack = 6.0;
    u.hard_attack = 1.0;
    u.defense = 22.0;
    u.breakthrough = 3.0;
    u.piercing = 4.0;
    u
}

fn tank(id: usize, side: Side, pos: HexCoord) -> Battalion {
    let mut u = Battalion::new(id, UnitType::MediumArmor, side, pos);
    u.soft_attack = 19.0;
    u.hard_attack = 14.0;
    u.defense = 5.0;
    u.breakthrough = 36.0;
    u.armor = 60.0;
    u.piercing = 61.0;
    u.hardness = 0.9;
    u
}

fn at_gun(id: usize, side: Side, pos: HexCoord) -> Battalion {
    let mut u = Battalion::new(id, UnitType::AntiTankBrigade, side, pos);
    u.soft_attack = 4.0;
    u.hard_attack = 20.0;
    u.defense = 4.0;
    u.piercing = 60.0;
    u.is_emplaced = true;
    u
}

fn artillery(id: usize, side: Side, pos: HexCoord) -> Battalion {
    let mut u = Battalion::new(id, UnitType::ArtilleryBrigade, side, pos);
    u.soft_attack = 25.0;
    u.hard_attack = 2.0;
    u.defense = 10.0;
    u.is_emplaced = true;
    u
}

fn rocket(id: usize, side: Side, pos: HexCoord) -> Battalion {
    let mut u = Battalion::new(id, UnitType::MotRocketArtillery, side, pos);
    u.soft_attack = 30.0;
    u
}

fn inf_div(id: usize, side: Side, pos: HexCoord, div: &str) -> Battalion {
    let mut u = inf(id, side, pos);
    u.division = div.to_string();
    u
}

/// Gives each division of the side a headquarters on the hex.
fn add_hq(units: &mut Vec<Battalion>, side: Side, pos: HexCoord) {
    let mut divisions: Vec<String> = Vec::new();
    for u in units.iter() {
        if u.side == side && !u.division.is_empty() && !divisions.contains(&u.division) {
            divisions.push(u.division.clone());
        }
    }
    for (i, d) in divisions.into_iter().enumerate() {
        let mut hq = Battalion::new(1000 + i, UnitType::Headquarters, side, pos);
        hq.division = d;
        units.push(hq);
    }
}

fn in_command(units: &[Battalion], u: &Battalion) -> bool {
    !u.is_hq()
        && !u.division.is_empty()
        && units.iter().any(|h| {
            h.is_hq()
                && h.side == u.side
                && h.division == u.division
                && h.is_combat_effective()
                && h.position.distance(u.position) <= 3
        })
}

fn encircled(g: &Ground, u: &BattalionUnit, all: &[BattalionUnit]) -> bool {
    neighbors(u.position).into_iter().all(|n| {
        !g.open(n)
            || all.iter().any(|e| e.side != u.side && e.is_combat_effective() && e.position == n)
    })
}

// Damage.

const ORG_CAP_RATIO: f32 = 0.4;
const SHOCK_RATIO: f32 = 0.25;
const HQ_BONUS: f32 = 0.1;
const HQ_DEATH_ORG_FRAC: f32 = 0.2;
const HQ_REGEN_FRAC: f32 = 0.02;

#[derive(Debug, Clone, Copy, PartialEq)]
struct PoolInfo {
    sum_qg: f32,
    sum_g: f32,
    members: u8,
}

/// How the damage of one strike came about.
#[derive(Debug, Clone, Copy)]
struct HitBreakdown {
    q: f32,
    p: f32,
    d_base: f32,
    d: f32,
    hit: f32,
    area_fire: bool,
    uses_breakthrough: bool,
    counter_split: f32,
    pool: Option<PoolInfo>,
    pool_share: f32,
    org_pool_final: f32,
    org_final: f32,
    str_final: f32,
}

#[derive(Debug, Clone)]
struct Entry {
    src: usize,
    dst: usize,
    counter: bool,
    bd: HitBreakdown,
}

fn quality(a: &Battalion, d: &Battalion) -> f32 {
    let tier = if a.piercing >= d.armor { 1.0 } else { 0.5 };
    let precision = match a.unit_type {
        UnitType::MediumArmor => 0.5,
        UnitType::AntiTankBrigade => 0.8,
        UnitType::ArtilleryBrigade | UnitType::MotRocketArtillery => 0.3,
        _ => 1.0,
    };
    (a.soft_attack * (1.0 - d.hardness) + a.hard_attack * d.hardness * tier) * precision
}

fn hit(p: f32, d: f32) -> f32 {
    0.1 + 0.3 * p / (p + d)
}

fn falloff(a: &Battalion, distance: i64) -> f32 {
    if distance > 1 && !a.is_indirect_artillery() {
        0.6
    } else {
        1.0
    }
}

fn melee_elevation(g: &Ground, a: &Battalion, d: &Battalion, distance: i64) -> f32 {
    if distance > 1 {
        return 1.0;
    }
    let levels = g.elevation(a.position) - g.elevation(d.position);
    1.0 + (levels as f32 * 0.15).clamp(-0.45, 0.45)
}

fn crest(g: &Ground, a: &Battalion, d: &Battalion, distance: i64) -> f32 {
    if distance <= 1 || !a.is_indirect_artillery() {
        return 1.0;
    }
    let step = *between(d.position, a.position).first().unwrap();
    let (near, own) = (g.elevation(step), g.elevation(d.position));
    if near > own {
        0.5
    } else if near < own {
        1.5
    } else {
        1.0
    }
}

fn cover(g: &Ground, d: &Battalion) -> f32 {
    1.0 - g.cell(d.position).map(|c| cover_percent(c.terrain)).unwrap_or(0.0)
}

fn strength_damage(org: f32, d: &Battalion) -> f32 {
    let rate = if d.org > 0.0 { 0.12 } else { 0.68 };
    org * rate * d.max_strength / d.max_org
}

fn aura(units: &[Battalion], a: usize, d: usize) -> f32 {
    let mut x = 1.0;
    if in_command(units, &units[a]) {
        x *= 1.0 + HQ_BONUS;
    }
    if in_command(units, &units[d]) {
        x *= 1.0 - HQ_BONUS;
    }
    x
}

/// One strike: a fire mission with its share, or a reply with its split.
fn single(
    g: &Ground,
    units: &[Battalion],
    ai: usize,
    di: usize,
    distance: i64,
    weight: f32,
    split: Option<f32>,
) -> Entry {
    let (a, d) = (&units[ai], &units[di]);
    let gr = a.strength_ratio();
    let q = quality(a, d);
    let p = match split {
        Some(n) => q * gr * gr / n,
        None => q * gr,
    };
    let d_base = if split.is_some() { d.breakthrough } else { d.defense };
    let linear = falloff(a, distance)
        * melee_elevation(g, a, d, distance)
        * crest(g, a, d, distance)
        * aura(units, ai, di)
        * cover(g, d);
    let org = (p * hit(p, d_base) * linear).min(d.max_org * ORG_CAP_RATIO);
    let bd = HitBreakdown {
        q,
        p,
        d_base,
        d: d_base,
        hit: hit(p, d_base),
        area_fire: split.is_none(),
        uses_breakthrough: split.is_some(),
        counter_split: split.unwrap_or(1.0),
        pool: None,
        pool_share: 1.0,
        org_pool_final: org,
        org_final: org * weight,
        str_final: strength_damage(org, d) * weight,
    };
    Entry { src: ai, dst: di, counter: split.is_some(), bd }
}

/// The volley of a group on one battalion, credited by contribution.
fn volley(g: &Ground, units: &[Battalion], members: &[(usize, i64)], di: usize) -> Vec<Entry> {
    let d = &units[di];
    let share = |ai: usize| quality(&units[ai], d) * units[ai].strength_ratio();
    let sum_qg: f32 = members.iter().map(|m| share(m.0)).sum();
    let sum_g: f32 = members.iter().map(|m| units[m.0].strength_ratio()).sum();
    let mean = |f: &dyn Fn(&(usize, i64)) -> f32| {
        members.iter().map(|m| f(m) * share(m.0)).sum::<f32>() / sum_qg
    };
    let mut linear = mean(&|m| falloff(&units[m.0], m.1))
        * mean(&|m| melee_elevation(g, &units[m.0], d, m.1))
        * (1.0 + HQ_BONUS * mean(&|m| if in_command(units, &units[m.0]) { 1.0 } else { 0.0 }))
        * cover(g, d);
    if in_command(units, d) {
        linear *= 1.0 - HQ_BONUS;
    }
    let p = sum_qg * sum_g;
    let org = (p * hit(p, d.defense) * linear).min(d.max_org * ORG_CAP_RATIO);
    let pool = PoolInfo { sum_qg, sum_g, members: members.len() as u8 };
    members
        .iter()
        .map(|m| {
            let pool_share = share(m.0) / sum_qg;
            let bd = HitBreakdown {
                q: quality(&units[m.0], d),
                p,
                d_base: d.defense,
                d: d.defense,
                hit: hit(p, d.defense),
                area_fire: false,
                uses_breakthrough: false,
                counter_split: 1.0,
                pool: (members.len() > 1).then_some(pool),
                pool_share,
                org_pool_final: org,
                org_final: org * pool_share,
                str_final: strength_damage(org * pool_share, d),
            };
            Entry { src: m.0, dst: di, counter: false, bd }
        })
        .collect()
}

fn ledger(g: &Ground, units: &[Battalion], plan: &FirePlan) -> Vec<Entry> {
    let mut out: Vec<Entry> = Vec::new();
    for s in &plan.strikes {
        let weight = match s.share {
            Share::Full => 1.0,
            Share::Centre => 0.4,
            Share::Neighbor => 0.1,
        };
        out.push(single(g, units, s.attacker, s.target, s.distance, weight, None));
    }
    for group in group_volleys(&plan.engagements) {
        let members: Vec<(usize, i64)> = group
            .iter()
            .map(|i| (plan.engagements[*i].attacker, plan.engagements[*i].distance))
            .collect();
        out.extend(volley(g, units, &members, plan.engagements[group[0]].target));
    }
    for c in counter_fire(&battalion_units(units), &plan.counters) {
        out.push(single(
            g,
            units,
            c.defender,
            c.attacker,
            c.distance,
            1.0,
            Some(c.split as f32),
        ));
    }
    out
}

fn damage_report(units: &[Battalion], plan: &FirePlan, entries: &[Entry]) -> DamageReport {
    let tolls = (0..units.len())
        .map(|i| {
            let mut u = units[i].clone();
            let mut total = 0.0;
            let mut struck = false;
            for e in entries.iter().filter(|e| e.dst == i) {
                u.strength = (u.strength - e.bd.str_final).max(0.0);
                u.org = (u.org - e.bd.org_final).max(0.0);
                total += e.bd.org_final;
                struck = true;
            }
            let stunned = total > 0.0 && total >= u.max_org * SHOCK_RATIO;
            Toll { condition: u.condition(), hit: struck, stunned }
        })
        .collect();
    let lanes = plan
        .lanes
        .iter()
        .map(|l| {
            let sum = |src: usize, dst: usize, counter: bool, f: fn(&HitBreakdown) -> f32| {
                let mut x = 0.0;
                for e in entries {
                    if e.src == src && e.dst == dst && e.counter == counter {
                        x += f(&e.bd);
                    }
                }
                f32::to_bits(x)
            };
            LaneDamage {
                org_dealt: sum(l.attacker, l.defender, false, |b| b.org_final),
                str_dealt: sum(l.attacker, l.defender, false, |b| b.str_final),
                org_taken: sum(l.defender, l.attacker, true, |b| b.org_final),
                str_taken: sum(l.defender, l.attacker, true, |b| b.str_final),
            }
        })
        .collect();
    DamageReport { tolls, lanes }
}

/// A report on one attack in plain quantities.
#[derive(Debug, Clone)]
struct Outcome {
    attacker_id: usize,
    defender_id: usize,
    hex: HexCoord,
    org_damage_dealt: f32,
    str_damage_dealt: f32,
    org_damage_taken: f32,
    defender_broken: bool,
    advanced: bool,
    surrendered: bool,
    eliminated: bool,
    shocked_defender: bool,
    shocked_attacker: bool,
    target_lost: bool,
    breakdown: Option<HitBreakdown>,
    counter_breakdown: Option<HitBreakdown>,
}

struct HqLoss {
    hq_id: usize,
    division: String,
    losses: Vec<(usize, f32)>,
    broke: Vec<usize>,
}

fn params() -> CombatParams {
    CombatParams { counter_direct_lay_range: 2, rocket_fire_cooldown_turns: 3, oob_leaving_turns: 6 }
}

struct Engine {
    engine: CombatEngine,
}

fn engine() -> Engine {
    Engine { engine: CombatEngine::new(params()) }
}

impl Engine {
    fn set_retreat_zones(&mut self, zones: Option<(Vec<HexCoord>, Vec<HexCoord>)>) {
        self.engine.set_retreat_zones(zones);
    }

    fn expire_shocks(&mut self, units: &mut [Battalion]) {
        let mut field = battalion_units(units);
        self.engine.expire_shocks(&mut field);
        take_over(units, &field);
    }

    fn take_hq_events(&mut self) -> Vec<HqLoss> {
        self.engine
            .take_hq_events()
            .into_iter()
            .map(|e| HqLoss {
                hq_id: e.hq_id,
                division: DIVISIONS[e.division].to_string(),
                losses: e.losses.iter().map(|l| (l.0, f32::from_bits(l.1))).collect(),
                broke: e.broke,
            })
            .collect()
    }

    fn apply_command_regen(&self, units: &mut [Battalion]) {
        let mut field = battalion_units(units);
        let commanded: Vec<bool> = units.iter().map(|u| in_command(units, u)).collect();
        let rests: Vec<Rest> = units
            .iter()
            .map(|u| {
                let mut v = u.clone();
                v.org = (v.org + v.max_org * HQ_REGEN_FRAC).min(v.max_org);
                let c = v.condition();
                Rest { org: c.org, org_ratio: c.org_ratio, org_cents: c.org_cents }
            })
            .collect();
        self.engine.apply_command_regen(&mut field, &commanded, &rests);
        take_over(units, &field);
    }

    fn apply_encirclement_attrition(&self, units: &mut [Battalion], levels: &[EncirclementLevel]) {
        let frac = |l: EncirclementLevel| match l {
            EncirclementLevel::Free => 0.0,
            EncirclementLevel::Partial => 0.025,
            EncirclementLevel::Full => 0.05,
        };
        let mut field = battalion_units(units);
        let worn: Vec<Condition> = units
            .iter()
            .zip(levels)
            .map(|(u, l)| {
                let mut v = u.clone();
                v.org = (v.org - frac(*l) * v.max_org).max(0.0);
                v.condition()
            })
            .collect();
        let rates = AttritionRates { free: false, partial: true, full: true };
        self.engine.apply_encirclement_attrition(&mut field, rates, &levels.to_vec(), &worn);
        take_over(units, &field);
    }

    fn resolve_fire_phase(
        &mut self,
        g: &Ground,
        units: &mut [Battalion],
        orders: &[AttackOrder],
    ) -> Vec<Outcome> {
        let map = g.map();
        let place = |id: usize| units.iter().find(|u| u.id == id).map(|u| u.position);
        let sight: Vec<bool> = orders
            .iter()
            .map(|o| match o.target {
                AttackTarget::Assault(d) | AttackTarget::DirectFire(d) => {
                    match (place(o.attacker), place(d)) {
                        (Some(a), Some(b)) => line_of_sight(g, a, b),
                        _ => false,
                    }
                }
                AttackTarget::FireMission { .. } => true,
            })
            .collect();
        let answers = Answers { rings: Vec::new(), shakes: Vec::new() };
        let mut reports = FireReports { sight, damage: None, answers };
        let mut entries: Vec<Entry> = Vec::new();
        let mut ids: Vec<(usize, usize)> = Vec::new();
        loop {
            let mut field = battalion_units(units);
            match self.engine.resolve_fire_phase(&map, &mut field, &orders.to_vec(), &reports) {
                Ok(results) => {
                    take_over(units, &field);
                    let lost = results.len() - ids.len();
                    let chain = |src: usize, dst: usize, counter: bool| {
                        entries
                            .iter()
                            .rfind(|e| e.src == src && e.dst == dst && e.counter == counter)
                            .map(|e| e.bd)
                    };
                    return results
                        .iter()
                        .enumerate()
                        .map(|(i, r)| Outcome {
                            attacker_id: r.attacker_id,
                            defender_id: r.defender_id,
                            hex: r.hex,
                            org_damage_dealt: f32::from_bits(r.org_damage_dealt),
                            str_damage_dealt: f32::from_bits(r.str_damage_dealt),
                            org_damage_taken: f32::from_bits(r.org_damage_taken),
                            defender_broken: r.defender_broken,
                            advanced: r.advanced,
                            surrendered: r.surrendered,
                            eliminated: r.eliminated,
                            shocked_defender: r.shocked_defender,
                            shocked_attacker: r.shocked_attacker,
                            target_lost: r.target_lost,
                            breakdown: (i >= lost)
                                .then(|| chain(ids[i - lost].0, ids[i - lost].1, false))
                                .flatten(),
                            counter_breakdown: (i >= lost)
                                .then(|| chain(ids[i - lost].1, ids[i - lost].0, true))
                                .flatten(),
                        })
                        .collect();
                }
                Err(FireQuestion::Damage { plan, .. }) => {
                    assert_eq!(field, battalion_units(units));
                    entries = ledger(g, units, &plan);
                    ids = plan.lanes.iter().map(|l| (l.attacker, l.defender)).collect();
                    reports.damage = Some(damage_report(units, &plan, &entries));
                }
                Err(FireQuestion::Answer { missing: Missing::Encircled(i), units: now }) => {
                    assert_eq!(field, battalion_units(units));
                    reports.answers.rings.push(encircled(g, &now[i], &now));
                }
                Err(FireQuestion::Answer { missing: Missing::Shaken(i), units: now }) => {
                    assert_eq!(field, battalion_units(units));
                    let mut u = units[i].clone();
                    u.take_over(&now[i]);
                    let lost = (u.max_org * HQ_DEATH_ORG_FRAC).min(u.org);
                    u.org -= lost;
                    reports.answers.shakes.push(Shake { lost: lost.to_bits(), condition: u.condition() });
                }
            }
        }
    }
}

struct Departure {
    unit_id: usize,
    side: Side,
    org_frac: f32,
}

fn apply_oob_leaving(g: &Ground, units: &mut [Battalion], p: &CombatParams) -> Vec<Departure> {
    let mut field = battalion_units(units);
    let out = leave(&g.map(), &mut field, p);
    take_over(units, &field);
    out.iter()
        .map(|d| Departure {
            unit_id: d.unit_id,
            side: d.side,
            org_frac: f32::from_bits(d.org_frac),
        })
        .collect()
}

fn retreat_step(g: &Ground, units: &mut [Battalion], id: usize, toward: bool) -> bool {
    let mut field = battalion_units(units);
    let moved = step_back(&g.map(), &mut field, id, toward);
    take_over(units, &field);
    moved
}

fn retreat_step_zoned(
    g: &Ground,
    units: &mut [Battalion],
    id: usize,
    toward: bool,
    zones: Option<(&[HexCoord], &[HexCoord])>,
) -> bool {
    let mut field = battalion_units(units);
    let moved = step_back_zoned(&g.map(), &mut field, id, toward, zones);
    take_over(units, &field);
    moved
}

fn close(a: f32, b: f32) -> bool {
    (a - b).abs() < 1e-3
}

#[test]
fn infantry_vs_infantry_baseline() {
    let g = grid(8, 8);
    let mut units = vec![
        inf(0, Side::Attacker, HexCoord::new(1, 1)),
        inf(1, Side::Defender, HexCoord::new(2, 1)),
    ];
    let mut e = engine();
    let res = e.resolve_fire_phase(
        &g,
        &mut units,
        &[AttackOrder {
            attacker: 0,
            target: AttackTarget::Assault(1),
        }],
    );
    assert_eq!(res.len(), 1);
    let r = &res[0];
    assert!(
        close(r.org_damage_dealt, 6.0 * (0.1 + 0.3 * 6.0 / 28.0)),
        "{}",
        r.org_damage_dealt
    );
    assert!(close(r.str_damage_dealt, 6.0 * (0.1 + 0.3 * 6.0 / 28.0) * 0.05));
    assert!(
        close(r.org_damage_taken, 1.8),
        "{}",
        r.org_damage_taken
    );
    assert!(!r.target_lost && !r.shocked_defender);
}

#[test]
fn retreating_defender_remains_targetable() {
    let g = grid(8, 8);
    let mut d = inf(1, Side::Defender, HexCoord::new(2, 1));
    d.org = 0.0;
    d.state = UnitState::Retreating;
    let mut units = vec![inf(0, Side::Attacker, HexCoord::new(1, 1)), d];
    let mut e = engine();
    let res = e.resolve_fire_phase(
        &g,
        &mut units,
        &[AttackOrder {
            attacker: 0,
            target: AttackTarget::Assault(1),
        }],
    );
    assert_eq!(res.len(), 1);
    let r = &res[0];
    assert!(!r.target_lost, "retreating unit stays a valid target");
    assert!(r.org_damage_dealt > 0.0, "broken unit keeps taking damage");
    assert_eq!(r.org_damage_taken, 0.0, "retreating units never counter");
    assert_eq!(units[1].state, UnitState::Retreating);
}

#[test]
fn assault_clears_withdrawn_remnant_from_corridor() {
    let g = grid(8, 8);
    let zone: Vec<HexCoord> = (0..8)
        .flat_map(|q| (0..8).map(move |r| HexCoord::new(q, r)))
        .collect();
    let zones = (vec![HexCoord::new(0, 0)], zone);
    let mut d = inf(1, Side::Defender, HexCoord::new(3, 1));
    d.org = 0.0;
    d.state = UnitState::Withdrawn;
    let mut units = vec![inf(0, Side::Attacker, HexCoord::new(2, 1)), d];
    let mut e = engine();
    e.set_retreat_zones(Some(zones));
    let res = e.resolve_fire_phase(
        &g,
        &mut units,
        &[AttackOrder {
            attacker: 0,
            target: AttackTarget::Assault(1),
        }],
    );
    assert_eq!(res.len(), 1);
    assert!(!res[0].target_lost, "withdrawn remnant is a valid target");
    assert!(res[0].advanced, "attacker occupies the cleared hex");
    assert_eq!(units[0].position, HexCoord::new(3, 1));
    assert_eq!(
        units[1].position.q, 4,
        "remnant pushed east off the corridor hex (was at (3,1))"
    );
    assert_ne!(units[1].position, HexCoord::new(3, 1));
    assert_eq!(
        units[1].state,
        UnitState::Retreating,
        "cleared remnant enters the retreat flow ()"
    );
}

#[test]
fn defender_rout_exits_at_its_zone_rim_not_the_map_edge() {
    let g = grid(12, 8);
    let zone: Vec<HexCoord> = (0..5)
        .flat_map(|q| (0..8).map(move |r| HexCoord::new(q, r)))
        .collect();
    let zones = (vec![HexCoord::new(0, 0)], zone.clone());
    let mut d = inf(1, Side::Defender, HexCoord::new(4, 4));
    d.org = 0.0;
    d.state = UnitState::Retreating;
    let mut units = vec![d];
    assert!(retreat_step_zoned(
        &g,
        &mut units,
        1,
        true,
        Some((&zones.0, &zones.1))
    ));
    assert_eq!(units[0].state, UnitState::Withdrawn);
    let mut d2 = inf(2, Side::Defender, HexCoord::new(4, 4));
    d2.org = 0.0;
    d2.state = UnitState::Retreating;
    let mut units2 = vec![d2];
    assert!(retreat_step(&g, &mut units2, 2, true));
    assert_eq!(units2[0].state, UnitState::Retreating);
    assert_eq!(units2[0].position.q, 5, "old logic steps east");
    let mut d3 = inf(3, Side::Defender, HexCoord::new(1, 4));
    d3.org = 0.0;
    d3.state = UnitState::Retreating;
    let mut units3 = vec![d3];
    for _ in 0..4 {
        retreat_step_zoned(&g, &mut units3, 3, true, Some((&zones.0, &zones.1)));
    }
    assert_eq!(
        units3[0].state,
        UnitState::Withdrawn,
        "reached the zone rim"
    );
}

#[test]
fn routed_unit_escapes_a_plateau_and_a_dead_end() {
    let mut g = grid(12, 8);
    for q in 10..12 {
        g.set_terrain(HexCoord::new(q, 4), Terrain::Water);
        g.set_terrain(HexCoord::new(q, 5), Terrain::Water);
    }
    let zone: Vec<HexCoord> = (0..8)
        .flat_map(|q| (0..8).map(move |r| HexCoord::new(q, r)))
        .collect();
    let zones = (vec![HexCoord::new(0, 0)], zone.clone());
    let mut d = inf(1, Side::Defender, HexCoord::new(7, 6));
    d.org = 0.0;
    d.state = UnitState::Retreating;
    let mut units = vec![d];
    assert!(retreat_step_zoned(
        &g,
        &mut units,
        1,
        true,
        Some((&zones.0, &zones.1))
    ));
    assert_eq!(units[0].state, UnitState::Withdrawn);
    let mut d2 = inf(2, Side::Defender, HexCoord::new(9, 4));
    d2.org = 0.0;
    d2.state = UnitState::Retreating;
    let mut units2 = vec![d2];
    for _ in 0..5 {
        retreat_step_zoned(&g, &mut units2, 2, true, Some((&zones.0, &zones.1)));
    }
    assert_eq!(
        units2[0].state,
        UnitState::Withdrawn,
        "pocket rout must find its way out: {:?}",
        units2[0]
    );
}

#[test]
fn retreat_step_without_enemies_does_not_overflow() {
    let g = grid(8, 8);
    let mut units = vec![inf(0, Side::Attacker, HexCoord::new(3, 3))];
    assert!(retreat_step(&g, &mut units, 0, false));
    assert!(
        units[0].position.q < 3,
        "tie-break steps toward the own (western) edge: {:?}",
        units[0].position
    );
}

#[test]
fn oob_dwell_counts_then_resets_in_bounds() {
    let mut g = grid(6, 6);
    let oob_hex = HexCoord::new(0, 0);
    g.cell_mut(oob_hex).unwrap().out_of_bounds = true;
    let p = params();
    let mut units = vec![inf(1, Side::Attacker, oob_hex)];
    apply_oob_leaving(&g, &mut units, &p);
    apply_oob_leaving(&g, &mut units, &p);
    assert_eq!(units[0].oob_turns, 2, "dwell accrues per full turn out");
    units[0].position = HexCoord::new(3, 3);
    apply_oob_leaving(&g, &mut units, &p);
    assert_eq!(units[0].oob_turns, 0, "in-bounds turn end resets dwell");
    assert_eq!(units[0].state, UnitState::Active);
}

#[test]
fn oob_leaving_at_threshold_freezes_strength_offboard() {
    let mut g = grid(6, 6);
    let oob_hex = HexCoord::new(0, 0);
    g.cell_mut(oob_hex).unwrap().out_of_bounds = true;
    let p = params();
    let mut u = inf(1, Side::Defender, oob_hex);
    u.org = 30.0;
    u.strength = 20.0;
    let mut units = vec![u];
    for _ in 0..p.oob_leaving_turns - 1 {
        assert!(apply_oob_leaving(&g, &mut units, &p).is_empty());
    }
    assert_eq!(
        units[0].state,
        UnitState::Active,
        "still in the battle at 5"
    );
    let departures = apply_oob_leaving(&g, &mut units, &p);
    assert_eq!(departures.len(), 1);
    assert_eq!(departures[0].unit_id, 1);
    assert!(
        (departures[0].org_frac - 0.5).abs() < 1e-4,
        "30/60 org wiped"
    );
    let u = &units[0];
    assert_eq!(u.state, UnitState::LeftBattle);
    assert_eq!(u.org, 0.0);
    assert_eq!(
        u.strength, 20.0,
        "strength frozen: slipped away, not annihilated"
    );
    assert_eq!(u.position, offboard());
    assert!(u.move_order.is_none());
    assert!(!u.is_targetable(), "gone for good: the AI ignores it");
}

#[test]
fn oob_leaving_covers_withdrawn_remnants() {
    let mut g = grid(6, 6);
    let oob_hex = HexCoord::new(5, 5);
    g.cell_mut(oob_hex).unwrap().out_of_bounds = true;
    let p = params();
    let mut u = inf(1, Side::Attacker, oob_hex);
    u.state = UnitState::Withdrawn;
    u.org = 0.0;
    let mut units = vec![u];
    for _ in 0..p.oob_leaving_turns {
        apply_oob_leaving(&g, &mut units, &p);
    }
    assert_eq!(units[0].state, UnitState::LeftBattle);
}

#[test]
fn retreat_prefers_oob_exit_and_holds_there() {
    let mut g = grid(8, 8);
    for h in [
        HexCoord::new(0, 0),
        HexCoord::new(0, 1),
        HexCoord::new(1, 0),
    ] {
        g.cell_mut(h).unwrap().out_of_bounds = true;
    }
    let mut d = inf(1, Side::Defender, HexCoord::new(1, 1));
    d.org = 0.0;
    d.state = UnitState::Retreating;
    let mut units = vec![d];
    let zones = (
        vec![HexCoord::new(7, 7)],
        vec![HexCoord::new(7, 0), HexCoord::new(7, 1)],
    );
    assert!(retreat_step_zoned(
        &g,
        &mut units,
        1,
        true,
        Some((&zones.0, &zones.1))
    ));
    let pos = units[0].position;
    assert!(
        g.cell(pos).unwrap().out_of_bounds,
        "rout fled into the ring: {pos:?}"
    );
    assert!(retreat_step_zoned(
        &g,
        &mut units,
        1,
        true,
        Some((&zones.0, &zones.1))
    ));
    assert_eq!(units[0].position, pos);
    assert_eq!(units[0].state, UnitState::Retreating);
}

#[test]
fn tank_precision_factor_scales_quality_linearly() {
    let g = grid(8, 8);
    let mut units = vec![
        tank(0, Side::Attacker, HexCoord::new(1, 1)),
        inf(1, Side::Defender, HexCoord::new(2, 1)),
    ];
    let mut e = engine();
    let res = e.resolve_fire_phase(
        &g,
        &mut units,
        &[AttackOrder {
            attacker: 0,
            target: AttackTarget::Assault(1),
        }],
    );
    assert!(
        close(res[0].org_damage_dealt, 9.5 * (0.1 + 0.3 * 9.5 / 31.5)),
        "{}",
        res[0].org_damage_dealt
    );
    assert!(
        close(res[0].org_damage_taken, 1.05 * (0.1 + 0.3 * 1.05 / 37.05)),
        "{}",
        res[0].org_damage_taken
    );
}

#[test]
fn at_versus_tank_hard_cap_and_shock() {
    let g = grid(8, 8);
    let mut units = vec![
        at_gun(0, Side::Attacker, HexCoord::new(1, 1)),
        tank(1, Side::Defender, HexCoord::new(2, 1)),
    ];
    let mut e = engine();
    let res = e.resolve_fire_phase(
        &g,
        &mut units,
        &[AttackOrder {
            attacker: 0,
            target: AttackTarget::DirectFire(1),
        }],
    );
    assert!(
        close(res[0].org_damage_dealt, 4.0),
        "{}",
        res[0].org_damage_dealt
    );
    assert!(close(res[0].str_damage_dealt, 0.096));
    assert!(res[0].shocked_defender);
    assert!(units[1].shocked);
}

#[test]
fn shock_persists_until_next_turn_end() {
    let g = grid(8, 8);
    let mut units = vec![
        at_gun(0, Side::Attacker, HexCoord::new(1, 1)),
        tank(1, Side::Defender, HexCoord::new(2, 1)),
    ];
    let mut e = engine();
    e.resolve_fire_phase(
        &g,
        &mut units,
        &[AttackOrder {
            attacker: 0,
            target: AttackTarget::DirectFire(1),
        }],
    );
    assert!(units[1].shocked, "shock applied");
    e.expire_shocks(&mut units);
    assert!(units[1].shocked, "fresh shock survives its own turn end");
    e.expire_shocks(&mut units);
    assert!(!units[1].shocked, "stale shock expires one turn-end later");
}

#[test]
fn shock_rearm_on_repeat_hit() {
    let g = grid(8, 8);
    let mut t = tank(1, Side::Defender, HexCoord::new(2, 1));
    t.max_strength = 50.0;
    t.strength = 50.0;
    let mut at = at_gun(0, Side::Attacker, HexCoord::new(1, 1));
    at.max_org = 1000.0;
    at.org = 1000.0;
    at.max_strength = 100.0;
    at.strength = 100.0;
    let mut units = vec![at, t];
    let mut e = engine();
    let order = AttackOrder {
        attacker: 0,
        target: AttackTarget::DirectFire(1),
    };
    e.resolve_fire_phase(&g, &mut units, std::slice::from_ref(&order));
    e.expire_shocks(&mut units);
    assert!(units[1].shocked, "first hit shocks");
    e.resolve_fire_phase(&g, &mut units, std::slice::from_ref(&order));
    e.expire_shocks(&mut units);
    assert!(units[1].shocked, "re-shocked unit stays shocked");
    e.expire_shocks(&mut units);
    assert!(!units[1].shocked, "and expires one turn-end later");
}

#[test]
fn counter_fire_split_across_attackers() {
    let g = grid(8, 8);
    let mut units = vec![
        tank(0, Side::Attacker, HexCoord::new(1, 1)),
        at_gun(1, Side::Attacker, HexCoord::new(2, 2)),
        inf(2, Side::Defender, HexCoord::new(2, 1)),
    ];
    let mut e = engine();
    let res = e.resolve_fire_phase(
        &g,
        &mut units,
        &[
            AttackOrder {
                attacker: 0,
                target: AttackTarget::Assault(2),
            },
            AttackOrder {
                attacker: 1,
                target: AttackTarget::DirectFire(2),
            },
        ],
    );
    assert_eq!(res.len(), 2);
    assert!(
        close(res[0].org_damage_taken, 0.525 * (0.1 + 0.3 * 0.525 / 36.525)),
        "{}",
        res[0].org_damage_taken
    );
    assert!(
        close(res[1].org_damage_taken, 3.0 * 0.4),
        "{}",
        res[1].org_damage_taken
    );
}

#[test]
fn no_counter_beyond_defender_range() {
    let g = grid(14, 6);
    let mut units = vec![
        artillery(0, Side::Attacker, HexCoord::new(1, 1)),
        inf(1, Side::Defender, HexCoord::new(9, 1)),
    ];
    let mut e = engine();
    let res = e.resolve_fire_phase(
        &g,
        &mut units,
        &[AttackOrder {
            attacker: 0,
            target: AttackTarget::FireMission {
                hex: HexCoord::new(9, 1),
                precise: true,
            },
        }],
    );
    assert_eq!(res.len(), 1);
    assert_eq!(res[0].org_damage_taken, 0.0);
    assert!(
        close(res[0].org_damage_dealt, 7.5 * (0.1 + 0.3 * 7.5 / 29.5)),
        "{}",
        res[0].org_damage_dealt
    );
}

#[test]
fn counter_battery_artillery_duel() {
    let g = grid(6, 4);
    let mut units = vec![
        artillery(0, Side::Attacker, HexCoord::new(1, 1)),
        artillery(1, Side::Defender, HexCoord::new(3, 1)),
    ];
    let mut e = engine();
    let res = e.resolve_fire_phase(
        &g,
        &mut units,
        &[AttackOrder {
            attacker: 0,
            target: AttackTarget::FireMission {
                hex: HexCoord::new(3, 1),
                precise: true,
            },
        }],
    );
    assert!(res[0].org_damage_taken > 0.0, "direct-lay counter expected");
    assert!(
        close(res[0].org_damage_taken, 3.0),
        "{}",
        res[0].org_damage_taken
    );
}

#[test]
fn direct_fire_falloff_beyond_adjacency() {
    let g = grid(8, 8);
    let mut units = vec![
        tank(0, Side::Attacker, HexCoord::new(1, 1)),
        at_gun(1, Side::Defender, HexCoord::new(3, 1)),
    ];
    let mut e = engine();
    let res = e.resolve_fire_phase(
        &g,
        &mut units,
        &[AttackOrder {
            attacker: 0,
            target: AttackTarget::DirectFire(1),
        }],
    );
    assert!(
        close(res[0].org_damage_dealt, 9.5 * (0.1 + 0.3 * 9.5 / 13.5) * 0.6),
        "{}",
        res[0].org_damage_dealt
    );
}

#[test]
fn mutual_destruction_is_possible() {
    let g = grid(8, 8);
    let mut a = tank(0, Side::Attacker, HexCoord::new(1, 1));
    a.org = 1.0;
    let mut b = tank(1, Side::Defender, HexCoord::new(2, 1));
    b.org = 1.0;
    let mut units = vec![a, b];
    let mut e = engine();
    let res = e.resolve_fire_phase(
        &g,
        &mut units,
        &[AttackOrder {
            attacker: 0,
            target: AttackTarget::Assault(1),
        }],
    );
    assert!(res[0].org_damage_taken >= 1.0, "counter should land too");
    assert!(units[0].org <= 0.0 && units[1].org <= 0.0);
    assert_ne!(units[0].state, UnitState::Active);
    assert_ne!(units[1].state, UnitState::Active);
}

#[test]
fn target_lost_when_out_of_reach() {
    let g = grid(8, 8);
    let mut units = vec![
        inf(0, Side::Attacker, HexCoord::new(1, 1)),
        inf(1, Side::Defender, HexCoord::new(4, 1)),
    ];
    let mut e = engine();
    let res = e.resolve_fire_phase(
        &g,
        &mut units,
        &[AttackOrder {
            attacker: 0,
            target: AttackTarget::Assault(1),
        }],
    );
    assert_eq!(res.len(), 1);
    assert!(res[0].target_lost);
    assert_eq!(res[0].org_damage_dealt, 0.0);
}

#[test]
fn area_fire_weights_center_and_neighbors() {
    let g = grid(14, 6);
    let mut units = vec![
        artillery(0, Side::Attacker, HexCoord::new(1, 1)),
        inf(1, Side::Defender, HexCoord::new(9, 1)),
        inf(2, Side::Defender, HexCoord::new(9, 2)),
    ];
    let mut e = engine();
    let res = e.resolve_fire_phase(
        &g,
        &mut units,
        &[AttackOrder {
            attacker: 0,
            target: AttackTarget::FireMission {
                hex: HexCoord::new(9, 1),
                precise: false,
            },
        }],
    );
    assert_eq!(res.len(), 2, "one lane per victim (per-hex reports)");
    let strike = 7.5 * (0.1 + 0.3 * 7.5 / 29.5);
    assert!(
        close(units[1].max_org - units[1].org, strike * 0.40),
        "centre takes 4/10: {}",
        units[1].org
    );
    assert!(
        close(units[2].max_org - units[2].org, strike * 0.10),
        "neighbour takes 1/10: {}",
        units[2].org
    );
}

#[test]
fn area_fire_bleeds_zone_when_aim_hex_is_empty() {
    let g = grid(14, 6);
    let mut units = vec![
        artillery(0, Side::Attacker, HexCoord::new(1, 1)),
        inf(2, Side::Defender, HexCoord::new(9, 2)),
        inf(3, Side::Defender, HexCoord::new(9, 0)),
    ];
    let mut e = engine();
    let res = e.resolve_fire_phase(
        &g,
        &mut units,
        &[AttackOrder {
            attacker: 0,
            target: AttackTarget::FireMission {
                hex: HexCoord::new(9, 1),
                precise: false,
            },
        }],
    );
    assert_eq!(res.len(), 2, "both zone neighbours bleed");
    assert!(res.iter().all(|r| !r.target_lost));
    for r in &res {
        assert!(
            close(r.org_damage_dealt, 7.5 * (0.1 + 0.3 * 7.5 / 29.5) * 0.10),
            "{}",
            r.org_damage_dealt
        );
    }
}

#[test]
fn area_fire_never_hits_the_firing_battery() {
    let g = grid(14, 6);
    let mut units = vec![
        artillery(0, Side::Attacker, HexCoord::new(8, 1)),
        inf(1, Side::Defender, HexCoord::new(9, 1)),
        inf(2, Side::Defender, HexCoord::new(9, 2)),
    ];
    let mut e = engine();
    let res = e.resolve_fire_phase(
        &g,
        &mut units,
        &[AttackOrder {
            attacker: 0,
            target: AttackTarget::FireMission {
                hex: HexCoord::new(9, 1),
                precise: false,
            },
        }],
    );
    assert_eq!(res.len(), 2, "one lane per enemy victim only: {res:?}");
}

#[test]
fn area_fire_splashes_friends_in_the_zone() {
    let g = grid(14, 6);
    let mut units = vec![
        artillery(0, Side::Attacker, HexCoord::new(1, 1)),
        inf(1, Side::Defender, HexCoord::new(9, 1)),
        inf(2, Side::Attacker, HexCoord::new(9, 2)),
    ];
    let mut e = engine();
    let res = e.resolve_fire_phase(
        &g,
        &mut units,
        &[AttackOrder {
            attacker: 0,
            target: AttackTarget::FireMission {
                hex: HexCoord::new(9, 1),
                precise: false,
            },
        }],
    );
    assert_eq!(res.len(), 2, "one lane per victim, friendly included");
    let strike = 7.5 * (0.1 + 0.3 * 7.5 / 29.5);
    assert!(
        close(units[1].max_org - units[1].org, strike * 0.40),
        "enemy centre takes 4/10: {}",
        units[1].org
    );
    assert!(
        close(units[2].max_org - units[2].org, strike * 0.10),
        "friendly neighbour takes 1/10: {}",
        units[2].org
    );
    assert!(res
        .iter()
        .any(|r| r.defender_id == 2 && r.org_damage_dealt > 0.0));
}

#[test]
fn area_fire_splashes_friend_at_the_aim_hex() {
    let g = grid(14, 6);
    let mut units = vec![
        artillery(0, Side::Attacker, HexCoord::new(1, 1)),
        inf(1, Side::Attacker, HexCoord::new(9, 1)),
        inf(2, Side::Defender, HexCoord::new(9, 2)),
    ];
    let mut e = engine();
    let res = e.resolve_fire_phase(
        &g,
        &mut units,
        &[AttackOrder {
            attacker: 0,
            target: AttackTarget::FireMission {
                hex: HexCoord::new(9, 1),
                precise: false,
            },
        }],
    );
    assert_eq!(
        res.len(),
        2,
        "one lane per victim, friendly centre included"
    );
    let strike = 7.5 * (0.1 + 0.3 * 7.5 / 29.5);
    assert!(
        close(units[1].max_org - units[1].org, strike * 0.40),
        "friendly at centre takes 4/10: {}",
        units[1].org
    );
    assert!(
        close(units[2].max_org - units[2].org, strike * 0.10),
        "enemy neighbour takes 1/10: {}",
        units[2].org
    );
    assert!(res
        .iter()
        .any(|r| r.defender_id == 1 && r.org_damage_dealt > 0.0));
}

#[test]
fn area_fire_on_an_empty_zone_is_lost() {
    let g = grid(14, 6);
    let mut units = vec![artillery(0, Side::Attacker, HexCoord::new(1, 1))];
    let mut e = engine();
    let res = e.resolve_fire_phase(
        &g,
        &mut units,
        &[AttackOrder {
            attacker: 0,
            target: AttackTarget::FireMission {
                hex: HexCoord::new(9, 1),
                precise: false,
            },
        }],
    );
    assert_eq!(res.len(), 1);
    assert!(res[0].target_lost);
    assert_eq!(res[0].org_damage_dealt, 0.0);
}

#[test]
fn area_fire_bleeds_friends_when_zone_has_no_enemy() {
    let g = grid(14, 6);
    let mut units = vec![
        artillery(0, Side::Attacker, HexCoord::new(1, 1)),
        inf(1, Side::Attacker, HexCoord::new(9, 1)),
        inf(2, Side::Attacker, HexCoord::new(9, 2)),
    ];
    let mut e = engine();
    let res = e.resolve_fire_phase(
        &g,
        &mut units,
        &[AttackOrder {
            attacker: 0,
            target: AttackTarget::FireMission {
                hex: HexCoord::new(9, 1),
                precise: false,
            },
        }],
    );
    assert_eq!(res.len(), 2, "both friends bleed: the mission is live");
    assert!(res.iter().all(|r| !r.target_lost));
    let strike = 7.5 * (0.1 + 0.3 * 7.5 / 29.5);
    assert!(
        close(units[1].max_org - units[1].org, strike * 0.40),
        "friendly centre takes 4/10: {}",
        units[1].org
    );
    assert!(
        close(units[2].max_org - units[2].org, strike * 0.10),
        "friendly neighbour takes 1/10: {}",
        units[2].org
    );
}

#[test]
fn rocket_area_full_strength_and_friendly_fire() {
    let g = grid(14, 6);
    let rkt = rocket(3, Side::Attacker, HexCoord::new(1, 1));
    let mut units = vec![
        rkt,
        inf(4, Side::Defender, HexCoord::new(6, 1)),
        inf(5, Side::Defender, HexCoord::new(6, 2)),
        inf(6, Side::Attacker, HexCoord::new(7, 1)),
    ];
    let mut e = engine();
    let res = e.resolve_fire_phase(
        &g,
        &mut units,
        &[AttackOrder {
            attacker: 3,
            target: AttackTarget::FireMission {
                hex: HexCoord::new(6, 1),
                precise: false,
            },
        }],
    );
    let per_hex = 9.0 * (0.1 + 0.3 * 9.0 / 31.0);
    assert_eq!(res.len(), 3, "one lane per victim (per-hex report)");
    for r in &res {
        assert!(
            close(r.org_damage_dealt, per_hex),
            "{} vs {}",
            r.org_damage_dealt,
            per_hex
        );
        assert_eq!(r.org_damage_taken, 0.0);
    }
    assert!(close(units[1].max_org - units[1].org, per_hex));
    assert!(close(units[2].max_org - units[2].org, per_hex));
    assert!(
        close(units[3].max_org - units[3].org, per_hex),
        "friendly fire"
    );
    assert!(res
        .iter()
        .any(|r| r.defender_id == 6 && r.hex == HexCoord::new(7, 1)));
}

#[test]
fn rocket_salvo_hits_zone_when_aim_hex_is_empty() {
    let g = grid(14, 6);
    let rkt = rocket(3, Side::Attacker, HexCoord::new(1, 1));
    let mut units = vec![
        rkt,
        inf(4, Side::Defender, HexCoord::new(6, 2)),
        inf(5, Side::Defender, HexCoord::new(7, 1)),
    ];
    let mut e = engine();
    let res = e.resolve_fire_phase(
        &g,
        &mut units,
        &[AttackOrder {
            attacker: 3,
            target: AttackTarget::FireMission {
                hex: HexCoord::new(6, 1),
                precise: false,
            },
        }],
    );
    let per_hex = 9.0 * (0.1 + 0.3 * 9.0 / 31.0);
    assert_eq!(res.len(), 2, "both zone neighbours take full-strength hits");
    assert!(res.iter().all(|r| !r.target_lost));
    for r in &res {
        assert!(close(r.org_damage_dealt, per_hex), "{}", r.org_damage_dealt);
    }
}

#[test]
fn rocket_salvo_triggers_reload_cooldown() {
    let g = grid(14, 6);
    let rkt = rocket(3, Side::Attacker, HexCoord::new(1, 1));
    let mut units = vec![rkt, inf(4, Side::Defender, HexCoord::new(6, 1))];
    let mut e = engine();
    let order = AttackOrder {
        attacker: 3,
        target: AttackTarget::FireMission {
            hex: HexCoord::new(6, 1),
            precise: false,
        },
    };
    let res = e.resolve_fire_phase(&g, &mut units, std::slice::from_ref(&order));
    assert_eq!(res.len(), 1);
    assert_eq!(units[0].fire_cooldown, 3);
    assert!(!units[0].can_fire_support());
    let res2 = e.resolve_fire_phase(&g, &mut units, std::slice::from_ref(&order));
    assert!(res2.is_empty() || res2.iter().all(|r| r.target_lost));
    units[0].refresh_turn();
    assert_eq!(units[0].fire_cooldown, 2);
    assert!(!units[0].can_fire_support());
    units[0].refresh_turn();
    units[0].refresh_turn();
    assert_eq!(units[0].fire_cooldown, 0);
    assert!(units[0].can_fire_support());
}

#[test]
fn attacking_drops_cover_stance() {
    let g = grid(8, 8);
    let mut a = inf(0, Side::Attacker, HexCoord::new(1, 1));
    a.is_holding = true;
    let mut units = vec![a, inf(1, Side::Defender, HexCoord::new(2, 1))];
    let mut e = engine();
    let res = e.resolve_fire_phase(
        &g,
        &mut units,
        &[AttackOrder {
            attacker: 0,
            target: AttackTarget::Assault(1),
        }],
    );
    assert_eq!(res.len(), 1);
    assert!(units[0].acted);
    assert!(!units[0].is_holding);
}

#[test]
fn assault_advances_into_vacated_hex() {
    let g = grid(8, 8);
    let mut d = inf(1, Side::Defender, HexCoord::new(3, 1));
    d.org = 1.0;
    let mut units = vec![tank(0, Side::Attacker, HexCoord::new(2, 1)), d];
    let mut e = engine();
    let res = e.resolve_fire_phase(
        &g,
        &mut units,
        &[AttackOrder {
            attacker: 0,
            target: AttackTarget::Assault(1),
        }],
    );
    assert!(res[0].defender_broken);
    assert!(res[0].advanced, "attacker should occupy the vacated hex");
    assert_eq!(units[0].position, HexCoord::new(3, 1));
    assert!(units[0].acted);
}

#[test]
fn river_ford_negative_cover_exposes_the_crosser() {
    let mut g = grid(8, 8);
    g.set_terrain(HexCoord::new(2, 1), Terrain::River);
    let mut units = vec![
        tank(0, Side::Attacker, HexCoord::new(1, 1)),
        inf(1, Side::Defender, HexCoord::new(2, 1)),
    ];
    let mut e = engine();
    let res = e.resolve_fire_phase(
        &g,
        &mut units,
        &[AttackOrder {
            attacker: 0,
            target: AttackTarget::Assault(1),
        }],
    );
    assert!(
        close(
            res[0].org_damage_dealt,
            9.5 * (0.1 + 0.3 * 9.5 / 31.5) * 1.5 * 1.15
        ),
        "{}",
        res[0].org_damage_dealt
    );
}

#[test]
fn no_flank_bonus_after_2026_08_14_redesign() {
    let g = grid(8, 8);
    let mut units = vec![
        inf(0, Side::Attacker, HexCoord::new(1, 1)),
        inf(1, Side::Defender, HexCoord::new(2, 1)),
        inf(2, Side::Attacker, HexCoord::new(3, 1)),
    ];
    let mut e = engine();
    let res = e.resolve_fire_phase(
        &g,
        &mut units,
        &[AttackOrder {
            attacker: 0,
            target: AttackTarget::Assault(1),
        }],
    );
    let expect = 6.0 * (0.1 + 0.3 * 6.0 / 28.0);
    assert!(
        close(res[0].org_damage_dealt, expect),
        "{} vs {}",
        res[0].org_damage_dealt,
        expect
    );
}

#[test]
fn retreating_defender_does_not_counter() {
    let g = grid(8, 8);
    let mut d = inf(1, Side::Defender, HexCoord::new(2, 1));
    d.state = UnitState::Retreating;
    let mut units = vec![inf(0, Side::Attacker, HexCoord::new(1, 1)), d];
    let mut e = engine();
    let res = e.resolve_fire_phase(
        &g,
        &mut units,
        &[AttackOrder {
            attacker: 0,
            target: AttackTarget::Assault(1),
        }],
    );
    assert_eq!(res[0].org_damage_taken, 0.0);
}

#[test]
fn group_strike_sums_attack_before_square() {
    let g = grid(8, 8);
    let mut units = vec![
        inf(0, Side::Attacker, HexCoord::new(1, 1)),
        inf(1, Side::Attacker, HexCoord::new(2, 2)),
        inf(2, Side::Defender, HexCoord::new(2, 1)),
    ];
    let mut e = engine();
    let res = e.resolve_fire_phase(
        &g,
        &mut units,
        &[
            AttackOrder {
                attacker: 0,
                target: AttackTarget::Assault(2),
            },
            AttackOrder {
                attacker: 1,
                target: AttackTarget::Assault(2),
            },
        ],
    );
    let total: f32 = res.iter().map(|r| r.org_damage_dealt).sum();
    let expect = 24.0 * (0.1 + 0.3 * 24.0 / 46.0);
    assert!(close(total, expect), "{} vs {}", total, expect);
    assert!(close(res[0].org_damage_dealt, expect / 2.0));
    assert!(close(res[1].org_damage_dealt, expect / 2.0));
}

#[test]
fn group_volley_lanes_share_pool_breakdowns() {
    let g = grid(8, 8);
    let mut units = vec![
        inf(0, Side::Attacker, HexCoord::new(1, 1)),
        inf(1, Side::Attacker, HexCoord::new(2, 2)),
        inf(2, Side::Defender, HexCoord::new(2, 1)),
    ];
    let mut e = engine();
    let res = e.resolve_fire_phase(
        &g,
        &mut units,
        &[
            AttackOrder {
                attacker: 0,
                target: AttackTarget::Assault(2),
            },
            AttackOrder {
                attacker: 1,
                target: AttackTarget::Assault(2),
            },
        ],
    );
    assert_eq!(res.len(), 2);
    let b0 = res[0].breakdown.expect("lane 0 chain");
    let b1 = res[1].breakdown.expect("lane 1 chain");
    let p0 = b0.pool.expect("pool info");
    assert_eq!(p0.members, 2);
    assert_eq!(p0, b1.pool.expect("pool info"));
    assert!(close(p0.sum_qg, 12.0));
    assert!(close(p0.sum_g, 2.0));
    assert!(close(b0.p, 24.0));
    assert!(close(b0.pool_share, 0.5));
    assert!(close(b0.pool_share + b1.pool_share, 1.0));
    assert!(close(b0.q, 6.0));
    assert!(close(b1.q, 6.0));
    let pool_final = 24.0 * (0.1 + 0.3 * 24.0 / 46.0);
    assert!(close(b0.org_pool_final, pool_final));
    assert!(close(b0.org_final, pool_final * 0.5));
    assert!(close(b0.org_final, res[0].org_damage_dealt));
    let c0 = res[0].counter_breakdown.expect("counter chain");
    assert!(close(c0.counter_split, 2.0));
    assert!(c0.uses_breakthrough);
}

#[test]
fn fizzled_order_has_no_breakdown() {
    let g = grid(8, 8);
    let mut units = vec![
        inf(0, Side::Attacker, HexCoord::new(0, 0)),
        inf(1, Side::Defender, HexCoord::new(4, 0)),
    ];
    let mut e = engine();
    let res = e.resolve_fire_phase(
        &g,
        &mut units,
        &[AttackOrder {
            attacker: 0,
            target: AttackTarget::Assault(1),
        }],
    );
    assert_eq!(res.len(), 1);
    assert!(res[0].target_lost);
    assert!(res[0].breakdown.is_none());
    assert!(res[0].counter_breakdown.is_none());
}

#[test]
fn artillery_has_no_radar_less_counter_battery() {
    let g = grid(10, 4);
    let mut units = vec![
        artillery(0, Side::Attacker, HexCoord::new(1, 1)),
        artillery(1, Side::Defender, HexCoord::new(6, 1)),
    ];
    let mut e = engine();
    let res = e.resolve_fire_phase(
        &g,
        &mut units,
        &[AttackOrder {
            attacker: 0,
            target: AttackTarget::FireMission {
                hex: HexCoord::new(6, 1),
                precise: true,
            },
        }],
    );
    assert_eq!(res.len(), 1);
    let r = &res[0];
    let bd = r.breakdown.expect("chain");
    assert!(bd.area_fire);
    assert!(close(bd.p, 7.5));
    assert!(close(r.org_damage_dealt, 7.5 * (0.1 + 0.3 * 7.5 / 17.5)));
    assert_eq!(r.org_damage_taken, 0.0, "no counter-battery beyond open sights");
    assert!(r.counter_breakdown.is_none());
}

#[test]
fn artillery_counters_inside_the_direct_lay_circle_aimed() {
    let g = grid(4, 4);
    let mut units = vec![
        inf(0, Side::Attacker, HexCoord::new(1, 1)),
        artillery(1, Side::Defender, HexCoord::new(2, 1)),
    ];
    let mut e = engine();
    let res = e.resolve_fire_phase(
        &g,
        &mut units,
        &[AttackOrder {
            attacker: 0,
            target: AttackTarget::Assault(1),
        }],
    );
    assert_eq!(res.len(), 1);
    let cbd = res[0].counter_breakdown.expect("direct-lay counter");
    assert!(!cbd.area_fire, "direct lay is the AIMED regime");
    assert!(cbd.uses_breakthrough);
    assert!(close(cbd.p, 7.5));
    assert!(close(cbd.org_final, 7.5 * (0.1 + 0.3 * 7.5 / 10.5)));
}

#[test]
fn rockets_never_counter() {
    let g = grid(4, 4);
    let rkt = rocket(1, Side::Defender, HexCoord::new(2, 1));
    let mut units = vec![inf(0, Side::Attacker, HexCoord::new(1, 1)), rkt];
    let mut e = engine();
    let res = e.resolve_fire_phase(
        &g,
        &mut units,
        &[AttackOrder {
            attacker: 0,
            target: AttackTarget::Assault(1),
        }],
    );
    assert_eq!(res.len(), 1);
    assert_eq!(res[0].org_damage_taken, 0.0);
    assert!(res[0].counter_breakdown.is_none());
}

#[test]
fn limbered_towed_guns_deal_no_damage_in_any_form() {
    let mut limbered = artillery(3, Side::Defender, HexCoord::new(2, 1));
    limbered.is_emplaced = false;
    assert!(limbered.requires_emplacement());
    assert!(!limbered.can_assault(), "limbered towed guns never assault");

    let g = grid(4, 4);
    let mut units = vec![inf(0, Side::Attacker, HexCoord::new(1, 1)), limbered];
    let mut e = engine();
    let res = e.resolve_fire_phase(
        &g,
        &mut units,
        &[AttackOrder {
            attacker: 0,
            target: AttackTarget::Assault(3),
        }],
    );
    assert_eq!(res.len(), 1);
    assert_eq!(res[0].org_damage_taken, 0.0, "limbered gun never counters");
    assert!(res[0].counter_breakdown.is_none());

    let mut limbered_attacker = artillery(4, Side::Attacker, HexCoord::new(1, 1));
    limbered_attacker.is_emplaced = false;
    let mut guns = vec![limbered_attacker, inf(5, Side::Defender, HexCoord::new(2, 1))];
    let res2 = e.resolve_fire_phase(
        &g,
        &mut guns,
        &[AttackOrder {
            attacker: 4,
            target: AttackTarget::Assault(5),
        }],
    );
    assert!(res2.is_empty(), "forged limbered assault must fizzle");
}

#[test]
fn rocket_mission_below_min_range_fizzles() {
    let g = grid(6, 4);
    let rkt = rocket(3, Side::Attacker, HexCoord::new(1, 1));
    let mut units = vec![rkt, inf(4, Side::Defender, HexCoord::new(3, 1))];
    let mut e = engine();
    let res = e.resolve_fire_phase(
        &g,
        &mut units,
        &[AttackOrder {
            attacker: 3,
            target: AttackTarget::FireMission {
                hex: HexCoord::new(3, 1),
                precise: false,
            },
        }],
    );
    assert_eq!(res.len(), 1);
    assert!(res[0].target_lost);
    assert_eq!(res[0].org_damage_dealt, 0.0);
}

#[test]
fn rocket_precise_order_resolves_as_area() {
    let g = grid(14, 6);
    let rkt = rocket(3, Side::Attacker, HexCoord::new(1, 1));
    let mut units = vec![
        rkt,
        inf(4, Side::Defender, HexCoord::new(6, 1)),
        inf(5, Side::Defender, HexCoord::new(6, 2)),
    ];
    let mut e = engine();
    let res = e.resolve_fire_phase(
        &g,
        &mut units,
        &[AttackOrder {
            attacker: 3,
            target: AttackTarget::FireMission {
                hex: HexCoord::new(6, 1),
                precise: true,
            },
        }],
    );
    let per_hex = 9.0 * (0.1 + 0.3 * 9.0 / 31.0);
    assert_eq!(res.len(), 2, "both zone victims struck: area, not precise");
    for r in &res {
        assert!(close(r.org_damage_dealt, per_hex), "{}", r.org_damage_dealt);
    }
}

#[test]
fn group_strike_aggregate_shock_crosses_threshold() {
    let g = grid(8, 8);
    let mut a0 = inf(0, Side::Attacker, HexCoord::new(1, 1));
    a0.soft_attack = 13.0;
    let mut a1 = inf(1, Side::Attacker, HexCoord::new(2, 2));
    a1.soft_attack = 13.0;
    let mut units = vec![a0, a1, inf(2, Side::Defender, HexCoord::new(2, 1))];
    let mut e = engine();
    let res = e.resolve_fire_phase(
        &g,
        &mut units,
        &[
            AttackOrder {
                attacker: 0,
                target: AttackTarget::Assault(2),
            },
            AttackOrder {
                attacker: 1,
                target: AttackTarget::Assault(2),
            },
        ],
    );
    let threshold = units[2].max_org * 0.25;
    let total: f32 = res.iter().map(|r| r.org_damage_dealt).sum();
    assert!(
        total >= threshold,
        "aggregate {total} must cross the shock threshold {threshold}"
    );
    assert!(
        res.iter().all(|r| r.org_damage_dealt < threshold),
        "each share must stay BELOW the threshold, else the aggregation is untested: {res:?}"
    );
    assert!(units[2].shocked, "the aggregated hit must Shock the target");
    assert!(res[0].shocked_defender && res[1].shocked_defender);
}

#[test]
fn strength_wipeout_annihilates() {
    let g = grid(8, 8);
    let mut d = inf(1, Side::Defender, HexCoord::new(2, 1));
    d.strength = 0.05;
    let mut units = vec![tank(0, Side::Attacker, HexCoord::new(1, 1)), d];
    let mut e = engine();
    let res = e.resolve_fire_phase(
        &g,
        &mut units,
        &[AttackOrder {
            attacker: 0,
            target: AttackTarget::Assault(1),
        }],
    );
    assert_eq!(units[1].state, UnitState::Eliminated);
    assert!(res[0].eliminated);
}

#[test]
fn command_aura_boosts_attack_and_defense_linear() {
    let g = grid(8, 8);
    let orders = [AttackOrder {
        attacker: 0,
        target: AttackTarget::Assault(1),
    }];

    let mut units = vec![
        inf_div(0, Side::Attacker, HexCoord::new(1, 1), "A"),
        inf_div(1, Side::Defender, HexCoord::new(2, 1), "B"),
    ];
    let base = engine().resolve_fire_phase(&g, &mut units, &orders)[0].org_damage_dealt;

    let mut units = vec![
        inf_div(0, Side::Attacker, HexCoord::new(1, 1), "A"),
        inf_div(1, Side::Defender, HexCoord::new(2, 1), "B"),
    ];
    add_hq(&mut units, Side::Attacker, HexCoord::new(1, 2));
    let boosted = engine().resolve_fire_phase(&g, &mut units, &orders)[0].org_damage_dealt;
    assert!(close(boosted, base * 1.10), "{boosted} vs {}", base * 1.10);

    let mut units = vec![
        inf_div(0, Side::Attacker, HexCoord::new(1, 1), "A"),
        inf_div(1, Side::Defender, HexCoord::new(2, 1), "B"),
    ];
    add_hq(&mut units, Side::Defender, HexCoord::new(2, 2));
    let shielded = engine().resolve_fire_phase(&g, &mut units, &orders)[0].org_damage_dealt;
    assert!(
        close(shielded, base * 0.90),
        "{shielded} vs {}",
        base * 0.90
    );
}

#[test]
fn command_group_bonus_is_attack_weighted() {
    let g = grid(9, 9);
    let orders = [
        AttackOrder {
            attacker: 0,
            target: AttackTarget::Assault(2),
        },
        AttackOrder {
            attacker: 1,
            target: AttackTarget::Assault(2),
        },
    ];
    let mk = || {
        vec![
            inf_div(0, Side::Attacker, HexCoord::new(4, 3), "A"),
            inf_div(1, Side::Attacker, HexCoord::new(2, 3), "A"),
            inf_div(2, Side::Defender, HexCoord::new(3, 3), "B"),
        ]
    };
    let mut units = mk();
    let base: f32 = engine()
        .resolve_fire_phase(&g, &mut units, &orders)
        .iter()
        .map(|r| r.org_damage_dealt)
        .sum();
    let mut units = mk();
    add_hq(&mut units, Side::Attacker, HexCoord::new(6, 3));
    let boosted: f32 = engine()
        .resolve_fire_phase(&g, &mut units, &orders)
        .iter()
        .map(|r| r.org_damage_dealt)
        .sum();
    assert!(close(boosted, base * 1.05), "{boosted} vs {}", base * 1.05);
}

#[test]
fn hq_annihilation_collapses_division() {
    let g = grid(8, 8);
    let mut killer = tank(0, Side::Attacker, HexCoord::new(1, 1));
    killer.soft_attack = 30.0;
    killer.division = "Atk".to_string();
    let mut weak = inf_div(2, Side::Defender, HexCoord::new(5, 5), "Def");
    weak.org = 10.0;
    let mut units = vec![
        killer,
        inf_div(1, Side::Defender, HexCoord::new(4, 4), "Def"),
        weak,
    ];
    add_hq(&mut units, Side::Defender, HexCoord::new(2, 1));
    let hqi = units.iter().position(|u| u.is_hq()).unwrap();
    units[hqi].strength = 0.05;
    let mut e = engine();
    let res = e.resolve_fire_phase(
        &g,
        &mut units,
        &[AttackOrder {
            attacker: 0,
            target: AttackTarget::Assault(1000),
        }],
    );
    assert!(res[0].eliminated);
    let hq = units.iter().find(|u| u.is_hq()).unwrap();
    assert_eq!(hq.state, UnitState::Eliminated);
    assert!(close(units[1].org, 48.0), "{}", units[1].org);
    let events = e.take_hq_events();
    assert_eq!(events.len(), 1);
    assert_eq!(events[0].division, "Def");
    assert_eq!(events[0].losses.len(), 2);
    assert_eq!(events[0].broke, vec![2usize]);
    assert_eq!(units[2].state, UnitState::Retreating);
}

#[test]
fn hq_retreat_or_survival_triggers_no_collapse() {
    let g = grid(8, 8);
    let mut units = vec![
        inf_div(0, Side::Attacker, HexCoord::new(1, 1), "A"),
        inf_div(1, Side::Defender, HexCoord::new(2, 1), "B"),
    ];
    add_hq(&mut units, Side::Defender, HexCoord::new(2, 2));
    let hqi = units.iter().position(|u| u.is_hq()).unwrap();
    units[hqi].org = 0.0;
    units[hqi].state = UnitState::Retreating;
    let mut e = engine();
    e.resolve_fire_phase(
        &g,
        &mut units,
        &[AttackOrder {
            attacker: 0,
            target: AttackTarget::Assault(1),
        }],
    );
    assert!(e.take_hq_events().is_empty());
}

#[test]
fn command_regen_only_for_in_command_active() {
    let mut units = vec![
        inf_div(0, Side::Attacker, HexCoord::new(1, 1), "D"),
        inf_div(1, Side::Attacker, HexCoord::new(8, 1), "D"),
        inf_div(2, Side::Attacker, HexCoord::new(1, 2), "D"),
        inf_div(3, Side::Attacker, HexCoord::new(2, 1), "D"),
        inf_div(4, Side::Attacker, HexCoord::new(3, 1), "D"),
        inf_div(5, Side::Defender, HexCoord::new(2, 0), "E"),
    ];
    units[0].org = 30.0;
    units[1].org = 30.0;
    units[2].org = 59.0;
    units[3].org = 0.0;
    units[3].state = UnitState::Retreating;
    units[4].org = 30.0;
    add_hq(&mut units, Side::Attacker, HexCoord::new(1, 1));
    let e = engine();
    let mut units = units;
    e.apply_command_regen(&mut units);
    assert!(close(units[0].org, 30.0), "{}", units[0].org);
    assert!(close(units[1].org, 30.0));
    assert!(close(units[2].org, 60.0));
    assert!(close(units[3].org, 0.0));
    assert!(close(units[4].org, 31.2), "{}", units[4].org);
    let hq = units.iter().find(|u| u.is_hq()).unwrap();
    assert!(close(hq.org, 20.0));
}

#[test]
fn melee_crest_occupant_shrugs_uphill_assault() {
    let mut g = grid(8, 8);
    set_elev(&mut g, 1, 1, 0);
    set_elev(&mut g, 2, 1, 3);
    let mut units = vec![
        inf(0, Side::Attacker, HexCoord::new(1, 1)),
        inf(1, Side::Defender, HexCoord::new(2, 1)),
    ];
    let mut e = engine();
    let res = e.resolve_fire_phase(
        &g,
        &mut units,
        &[AttackOrder {
            attacker: 0,
            target: AttackTarget::Assault(1),
        }],
    );
    let r = &res[0];
    assert!(
        close(r.org_damage_dealt, 6.0 * (0.1 + 0.3 * 6.0 / 28.0) * 0.55),
        "{}",
        r.org_damage_dealt
    );
    assert!(
        close(r.org_damage_taken, 1.8 * 1.45),
        "{}",
        r.org_damage_taken
    );
}

#[test]
fn melee_downhill_attacker_rolls_over_valley() {
    let mut g = grid(8, 8);
    set_elev(&mut g, 1, 1, 3);
    set_elev(&mut g, 2, 1, 0);
    let mut units = vec![
        inf(0, Side::Attacker, HexCoord::new(1, 1)),
        inf(1, Side::Defender, HexCoord::new(2, 1)),
    ];
    let mut e = engine();
    let res = e.resolve_fire_phase(
        &g,
        &mut units,
        &[AttackOrder {
            attacker: 0,
            target: AttackTarget::Assault(1),
        }],
    );
    let r = &res[0];
    assert!(
        close(r.org_damage_dealt, 6.0 * (0.1 + 0.3 * 6.0 / 28.0) * 1.45),
        "{}",
        r.org_damage_dealt
    );
    assert!(
        close(r.org_damage_taken, 1.8 * 0.55),
        "{}",
        r.org_damage_taken
    );
}

#[test]
fn melee_gain_inactive_beyond_contact() {
    let mut g = grid(8, 8);
    set_elev(&mut g, 1, 1, 3);
    set_elev(&mut g, 2, 1, 2);
    set_elev(&mut g, 3, 1, 0);
    let mut units = vec![
        tank(0, Side::Attacker, HexCoord::new(1, 1)),
        inf(1, Side::Defender, HexCoord::new(3, 1)),
    ];
    units[0].attack_range = 2;
    let mut e = engine();
    let res = e.resolve_fire_phase(
        &g,
        &mut units,
        &[AttackOrder {
            attacker: 0,
            target: AttackTarget::DirectFire(1),
        }],
    );
    let r = &res[0];
    assert!(!r.target_lost);
    assert!(
        close(r.org_damage_dealt, 9.5 * (0.1 + 0.3 * 9.5 / 31.5) * 0.6),
        "{}",
        r.org_damage_dealt
    );
}

#[test]
fn direct_fire_ridge_blocks_tank() {
    let mut g = grid(8, 8);
    set_elev(&mut g, 1, 1, 0);
    set_elev(&mut g, 2, 1, 3);
    set_elev(&mut g, 3, 1, 0);
    let mut units = vec![
        tank(0, Side::Attacker, HexCoord::new(1, 1)),
        inf(1, Side::Defender, HexCoord::new(3, 1)),
    ];
    units[0].attack_range = 2;
    let mut e = engine();
    let res = e.resolve_fire_phase(
        &g,
        &mut units,
        &[AttackOrder {
            attacker: 0,
            target: AttackTarget::DirectFire(1),
        }],
    );
    assert!(res[0].target_lost, "the ridge blocks the flat trajectory");
    assert_eq!(res[0].org_damage_dealt, 0.0);
    assert_eq!(
        res[0].org_damage_taken, 0.0,
        "no counter-fire from an impossible shot"
    );
}

#[test]
fn artillery_fires_over_the_ridge_exposed_crest() {
    let mut g = grid(8, 8);
    set_elev(&mut g, 1, 1, 0);
    set_elev(&mut g, 2, 1, 4);
    set_elev(&mut g, 3, 1, 4);
    set_elev(&mut g, 4, 1, 0);
    set_elev(&mut g, 5, 1, 3);
    let mut units = vec![
        artillery(0, Side::Attacker, HexCoord::new(1, 1)),
        inf(1, Side::Defender, HexCoord::new(5, 1)),
    ];
    let mut e = engine();
    let res = e.resolve_fire_phase(
        &g,
        &mut units,
        &[AttackOrder {
            attacker: 0,
            target: AttackTarget::FireMission {
                hex: HexCoord::new(5, 1),
                precise: true,
            },
        }],
    );
    let r = &res[0];
    assert!(!r.target_lost, "the high arc clears the ridge");
    assert!(
        close(r.org_damage_dealt, 7.5 * (0.1 + 0.3 * 7.5 / 29.5) * 1.5),
        "{}",
        r.org_damage_dealt
    );
}

#[test]
fn artillery_reverse_slope_defilade() {
    let mut g = grid(8, 8);
    set_elev(&mut g, 1, 1, 0);
    set_elev(&mut g, 4, 1, 2);
    set_elev(&mut g, 5, 1, 0);
    let mut units = vec![
        artillery(0, Side::Attacker, HexCoord::new(1, 1)),
        inf(1, Side::Defender, HexCoord::new(5, 1)),
    ];
    let mut e = engine();
    let res = e.resolve_fire_phase(
        &g,
        &mut units,
        &[AttackOrder {
            attacker: 0,
            target: AttackTarget::FireMission {
                hex: HexCoord::new(5, 1),
                precise: true,
            },
        }],
    );
    let r = &res[0];
    assert!(!r.target_lost);
    assert!(
        close(r.org_damage_dealt, 7.5 * (0.1 + 0.3 * 7.5 / 29.5) * 0.5),
        "{}",
        r.org_damage_dealt
    );
}

#[test]
fn artillery_crest_neutral_equal_step() {
    let mut g = grid(8, 8);
    set_elev(&mut g, 1, 1, 0);
    set_elev(&mut g, 4, 1, 1);
    set_elev(&mut g, 5, 1, 1);
    let mut units = vec![
        artillery(0, Side::Attacker, HexCoord::new(1, 1)),
        inf(1, Side::Defender, HexCoord::new(5, 1)),
    ];
    let mut e = engine();
    let res = e.resolve_fire_phase(
        &g,
        &mut units,
        &[AttackOrder {
            attacker: 0,
            target: AttackTarget::FireMission {
                hex: HexCoord::new(5, 1),
                precise: true,
            },
        }],
    );
    let r = &res[0];
    assert!(!r.target_lost);
    assert!(
        close(r.org_damage_dealt, 7.5 * (0.1 + 0.3 * 7.5 / 29.5)),
        "{}",
        r.org_damage_dealt
    );
}

// What the engine asks, and when.

fn assault(attacker: usize, target: usize) -> AttackOrder {
    AttackOrder { attacker, target: AttackTarget::Assault(target) }
}

fn direct(attacker: usize, target: usize) -> AttackOrder {
    AttackOrder { attacker, target: AttackTarget::DirectFire(target) }
}

fn mission(attacker: usize, hex: HexCoord, precise: bool) -> AttackOrder {
    AttackOrder { attacker, target: AttackTarget::FireMission { hex, precise } }
}

fn no_answers() -> Answers {
    Answers { rings: Vec::new(), shakes: Vec::new() }
}

/// A toll that leaves a battalion as it is.
fn spared(u: &Battalion) -> Toll {
    Toll { condition: u.condition(), hit: false, stunned: false }
}

/// A toll that takes all organisation, or all strength with it.
fn ruined(u: &Battalion, wiped_out: bool) -> Toll {
    let mut v = u.clone();
    v.org = 0.0;
    if wiped_out {
        v.strength = 0.0;
    }
    Toll { condition: v.condition(), hit: true, stunned: false }
}

fn lane(dealt: f32) -> LaneDamage {
    LaneDamage { org_dealt: dealt.to_bits(), str_dealt: 0, org_taken: 0, str_taken: 0 }
}

#[test]
fn a_phase_asks_for_the_damage_first_and_changes_nothing() {
    let g = grid(8, 8);
    let units = vec![
        inf(0, Side::Attacker, HexCoord::new(1, 1)),
        inf(1, Side::Defender, HexCoord::new(2, 1)),
    ];
    let mut field = battalion_units(&units);
    let mut e = CombatEngine::new(params());
    let reports = FireReports { sight: vec![true], damage: None, answers: no_answers() };
    match e.resolve_fire_phase(&g.map(), &mut field, &vec![assault(0, 1)], &reports) {
        Err(FireQuestion::Damage { plan, units: now }) => {
            assert_eq!(plan.engagements.len(), 1);
            assert_eq!(plan.lanes.len(), 1);
            assert_eq!(plan.counters.len(), 1);
            assert!(plan.lost.is_empty() && plan.strikes.is_empty());
            assert_eq!(now, battalion_units(&units));
        }
        other => panic!("the damage is asked for, got {other:?}"),
    }
    assert_eq!(field, battalion_units(&units));
    assert!(e.take_hq_events().is_empty());
}

#[test]
fn a_broken_battalion_surrenders_only_in_full_encirclement() {
    let g = grid(8, 8);
    let units = vec![
        artillery(0, Side::Attacker, HexCoord::new(1, 1)),
        inf(1, Side::Defender, HexCoord::new(5, 1)),
    ];
    let orders = vec![mission(0, HexCoord::new(5, 1), true)];
    for ringed in [false, true] {
        let mut field = battalion_units(&units);
        let mut e = CombatEngine::new(params());
        let damage = DamageReport {
            tolls: vec![spared(&units[0]), ruined(&units[1], false)],
            lanes: vec![lane(60.0)],
        };
        let mut reports =
            FireReports { sight: vec![true], damage: Some(damage), answers: no_answers() };
        match e.resolve_fire_phase(&g.map(), &mut field, &orders, &reports) {
            Err(FireQuestion::Answer { missing, .. }) => {
                assert_eq!(missing, Missing::Encircled(1));
            }
            other => panic!("the ring is asked for, got {other:?}"),
        }
        assert_eq!(field, battalion_units(&units));
        reports.answers.rings.push(ringed);
        let out = e.resolve_fire_phase(&g.map(), &mut field, &orders, &reports).unwrap();
        assert_eq!(out.len(), 1);
        assert_eq!(out[0].surrendered, ringed);
        assert_eq!(out[0].defender_broken, !ringed);
        let state = if ringed { UnitState::Surrendered } else { UnitState::Retreating };
        assert_eq!(field[1].state, state);
        assert_eq!(field[1].position, HexCoord::new(5, 1), "fire moves nobody");
        assert!(field[0].acted);
    }
}

#[test]
fn the_loss_of_a_headquarters_shakes_its_own_division_only() {
    let g = grid(8, 8);
    let mut units = vec![
        tank(0, Side::Attacker, HexCoord::new(1, 1)),
        inf_div(1, Side::Defender, HexCoord::new(4, 4), "Def"),
        inf_div(2, Side::Defender, HexCoord::new(5, 5), "D"),
    ];
    let mut hq = Battalion::new(9, UnitType::Headquarters, Side::Defender, HexCoord::new(2, 1));
    hq.division = "Def".to_string();
    units.push(hq);
    let orders = vec![assault(0, 9)];
    let damage = DamageReport {
        tolls: vec![
            spared(&units[0]),
            spared(&units[1]),
            spared(&units[2]),
            ruined(&units[3], true),
        ],
        lanes: vec![lane(20.0)],
    };
    let answers = Answers { rings: vec![false], shakes: Vec::new() };
    let mut reports = FireReports { sight: vec![true], damage: Some(damage), answers };
    let mut field = battalion_units(&units);
    let mut e = CombatEngine::new(params());
    match e.resolve_fire_phase(&g.map(), &mut field, &orders, &reports) {
        Err(FireQuestion::Answer { missing, .. }) => assert_eq!(missing, Missing::Shaken(1)),
        other => panic!("the shake is asked for, got {other:?}"),
    }
    let mut shaken = units[1].clone();
    shaken.org = 48.0;
    reports.answers.shakes.push(Shake { lost: 12.0f32.to_bits(), condition: shaken.condition() });
    let out = e.resolve_fire_phase(&g.map(), &mut field, &orders, &reports).unwrap();
    assert!(out[0].eliminated);
    assert_eq!(field[1].org, 48.0f32.to_bits());
    assert_eq!(field[2], units[2].battalion_unit());
    let events = e.take_hq_events();
    assert_eq!(events.len(), 1);
    assert_eq!((events[0].hq_id, events[0].division), (9, division_number("Def")));
    assert_eq!(events[0].losses, vec![(1, 12.0f32.to_bits())]);
    assert!(events[0].broke.is_empty());
    assert!(e.take_hq_events().is_empty(), "they are handed out once");
}

// Orders.

#[test]
fn orders_of_the_unfit_are_dropped_and_those_out_of_reach_fizzle() {
    let g = grid(10, 10);
    let mut shocked = inf(1, Side::Attacker, HexCoord::new(2, 2));
    shocked.shocked = true;
    let mut routed = inf(2, Side::Attacker, HexCoord::new(2, 4));
    routed.state = UnitState::Retreating;
    let mut units = vec![
        inf(0, Side::Attacker, HexCoord::new(2, 1)),
        shocked,
        routed,
        inf(3, Side::Defender, HexCoord::new(3, 2)),
        tank(4, Side::Attacker, HexCoord::new(8, 8)),
    ];
    let res = engine().resolve_fire_phase(
        &g,
        &mut units,
        &[assault(1, 3), assault(2, 3), assault(77, 3), assault(0, 78), direct(4, 3), assault(0, 3)],
    );
    assert_eq!(res.len(), 2);
    assert!(res[0].target_lost && res[0].attacker_id == 4 && res[0].defender_id == 3);
    assert!(res[1].target_lost && res[1].attacker_id == 0, "two hexes away");
    assert!(units.iter().all(|u| !u.acted), "a fizzled order costs nothing");
}

#[test]
fn assault_and_direct_fire_on_one_battalion_are_two_volleys() {
    let units = vec![
        tank(0, Side::Attacker, HexCoord::new(1, 1)),
        tank(1, Side::Attacker, HexCoord::new(2, 2)),
        tank(2, Side::Attacker, HexCoord::new(4, 1)),
        inf(3, Side::Defender, HexCoord::new(2, 1)),
    ];
    let mut field = battalion_units(&units);
    let orders = vec![assault(0, 3), direct(2, 3), assault(1, 3)];
    let plan =
        tactical::fire::plan_orders(params(), &mut field, &orders, &vec![true, true, true]);
    assert_eq!(group_volleys(&plan.engagements), vec![vec![0, 2], vec![1]]);
    let replies = counter_fire(&field, &plan.counters);
    assert_eq!(replies.len(), 2, "the tank two hexes away is out of reach");
    assert!(replies.iter().all(|c| c.defender == 3 && c.split == 2));
}

#[test]
fn a_salvo_spares_no_one_and_is_answered_by_nobody_out_of_reach() {
    let g = grid(14, 6);
    let mut units = vec![
        rocket(0, Side::Attacker, HexCoord::new(1, 1)),
        inf(1, Side::Attacker, HexCoord::new(6, 1)),
        inf(2, Side::Defender, HexCoord::new(6, 2)),
        inf(3, Side::Defender, HexCoord::new(9, 1)),
    ];
    let res = engine().resolve_fire_phase(&g, &mut units, &[mission(0, HexCoord::new(6, 1), true)]);
    let struck: Vec<usize> = res.iter().map(|r| r.defender_id).collect();
    assert_eq!(struck, vec![1, 2]);
    assert!(res.iter().all(|r| r.counter_breakdown.is_none()));
    assert_eq!(units[0].fire_cooldown, 3);
}

#[test]
fn the_best_organised_enemy_answers_for_an_empty_aim_hex() {
    let g = grid(6, 6);
    let mut weak = tank(1, Side::Defender, HexCoord::new(3, 1));
    weak.org = 4.0;
    let mut units = vec![
        artillery(0, Side::Attacker, HexCoord::new(1, 2)),
        weak,
        tank(2, Side::Defender, HexCoord::new(2, 3)),
    ];
    let res = engine().resolve_fire_phase(&g, &mut units, &[mission(0, HexCoord::new(3, 2), false)]);
    assert_eq!(res.len(), 2);
    assert_eq!(res[0].org_damage_taken, 0.0);
    assert!(res[1].org_damage_taken > 0.0);
}

// Turn ends.

#[test]
fn attrition_surrenders_only_the_fully_encircled() {
    let mut units = vec![
        inf(0, Side::Defender, HexCoord::new(1, 1)),
        inf(1, Side::Defender, HexCoord::new(3, 1)),
        inf(2, Side::Defender, HexCoord::new(5, 1)),
        inf(3, Side::Defender, HexCoord::new(7, 1)),
    ];
    units[1].org = 1.0;
    units[2].org = 1.0;
    units[3].state = UnitState::Retreating;
    let e = engine();
    e.apply_encirclement_attrition(
        &mut units,
        &[
            EncirclementLevel::Full,
            EncirclementLevel::Full,
            EncirclementLevel::Partial,
            EncirclementLevel::Full,
        ],
    );
    assert!(close(units[0].org, 57.0) && units[0].state == UnitState::Active);
    assert_eq!((units[1].org, units[1].state), (0.0, UnitState::Surrendered));
    assert_eq!((units[2].org, units[2].state), (0.0, UnitState::Retreating));
    assert_eq!((units[3].org, units[3].state), (60.0, UnitState::Retreating));
    e.apply_encirclement_attrition(&mut units[..1], &[EncirclementLevel::Free]);
    assert!(close(units[0].org, 57.0), "freedom costs nothing");
}

#[test]
fn only_consecutive_turns_out_of_bounds_count() {
    let mut g = grid(6, 6);
    let out = HexCoord::new(0, 0);
    g.cell_mut(out).unwrap().out_of_bounds = true;
    let mut units = vec![inf(1, Side::Attacker, out), inf(2, Side::Attacker, out)];
    units[1].state = UnitState::Surrendered;
    for _ in 0..5 {
        apply_oob_leaving(&g, &mut units, &params());
    }
    units[0].position = HexCoord::new(3, 3);
    apply_oob_leaving(&g, &mut units, &params());
    units[0].position = out;
    for _ in 0..5 {
        assert!(apply_oob_leaving(&g, &mut units, &params()).is_empty());
    }
    assert_eq!(units[0].state, UnitState::Active);
    let gone = apply_oob_leaving(&g, &mut units, &params());
    assert_eq!((gone[0].unit_id, gone[0].side), (1, Side::Attacker));
    assert!(close(gone[0].org_frac, 1.0));
    assert_eq!((units[1].state, units[1].oob_turns), (UnitState::Surrendered, 0));
}

// Routs.

#[test]
fn a_rout_goes_round_those_that_stand_in_its_way() {
    let g = grid(6, 5);
    let mut rout = inf(1, Side::Defender, HexCoord::new(3, 2));
    rout.org = 0.0;
    rout.state = UnitState::Retreating;
    let mut units = vec![rout, inf(2, Side::Defender, HexCoord::new(4, 2))];
    let before = units[0].position;
    assert!(retreat_step(&g, &mut units, 1, true));
    assert_eq!(units[0].position.distance(before), 1);
    assert_ne!(units[0].position, units[1].position);
    for _ in 0..3 {
        retreat_step(&g, &mut units, 1, true);
    }
    assert_eq!(units[0].state, UnitState::Withdrawn, "it has reached its own edge");
    assert_eq!(units[0].position.q, 5);
}

#[test]
fn nobody_moves_without_a_way_or_an_order() {
    let mut g = grid(5, 5);
    for n in neighbors(HexCoord::new(2, 2)) {
        g.set_terrain(n, Terrain::Water);
    }
    let mut rout = inf(1, Side::Defender, HexCoord::new(2, 2));
    rout.state = UnitState::Retreating;
    let mut units = vec![rout];
    retreat_step(&g, &mut units, 1, true);
    assert_eq!(units[0].position, HexCoord::new(2, 2));
    assert_eq!(units[0].state, UnitState::Retreating);
    assert!(!retreat_step(&g, &mut units, 99, true), "there is no such battalion");
}

#[test]
fn an_assault_leaves_no_two_battalions_on_one_hex() {
    let g = grid(8, 8);
    let mut d = inf(2, Side::Defender, HexCoord::new(3, 3));
    d.org = 1.0;
    let mut units = vec![
        tank(0, Side::Attacker, HexCoord::new(2, 3)),
        inf(1, Side::Attacker, HexCoord::new(3, 2)),
        d,
        inf(3, Side::Defender, HexCoord::new(4, 3)),
    ];
    engine().resolve_fire_phase(&g, &mut units, &[assault(0, 2), assault(1, 2)]);
    assert_eq!(units[0].position, HexCoord::new(3, 3));
    assert_eq!(units[1].position, HexCoord::new(3, 2), "only one takes the hex");
    for i in 0..units.len() {
        for j in 0..i {
            assert_ne!(units[i].position, units[j].position);
        }
    }
}

#[test]
fn an_old_shock_is_not_reported_as_this_phases() {
    let g = grid(8, 8);
    let mut d = inf(1, Side::Defender, HexCoord::new(2, 1));
    d.shocked = true;
    let mut units = vec![inf(0, Side::Attacker, HexCoord::new(1, 1)), d];
    let res = engine().resolve_fire_phase(&g, &mut units, &[assault(0, 1)]);
    assert!(units[1].shocked, "it is still shocked");
    assert!(!res[0].shocked_defender && !res[0].shocked_attacker, "but not by this hit");
}

#[test]
fn counter_fire_that_shocks_is_reported() {
    let g = grid(8, 8);
    let mut d = tank(1, Side::Defender, HexCoord::new(2, 1));
    d.soft_attack = 500.0;
    let mut units = vec![inf(0, Side::Attacker, HexCoord::new(1, 1)), d];
    let res = engine().resolve_fire_phase(&g, &mut units, &[assault(0, 1)]);
    assert!(res[0].shocked_attacker && units[0].shocked);
    assert!(!res[0].shocked_defender);
}

#[test]
fn a_fire_phase_wears_down_and_keeps_the_roll() {
    let g = grid(8, 8);
    let mut wiped = inf(2, Side::Defender, HexCoord::new(2, 2));
    wiped.strength = 0.01;
    let mut units = vec![
        tank(0, Side::Attacker, HexCoord::new(1, 2)),
        inf(1, Side::Attacker, HexCoord::new(3, 1)),
        wiped,
        inf(3, Side::Defender, HexCoord::new(5, 5)),
    ];
    let before = units.clone();
    engine().resolve_fire_phase(&g, &mut units, &[assault(0, 2), assault(1, 2)]);
    assert_eq!(units.len(), before.len());
    for (u, b) in units.iter().zip(&before) {
        assert_eq!(u.id, b.id);
        assert!(u.org <= b.org && u.strength <= b.strength);
    }
    assert_eq!((units[2].strength, units[2].state), (0.0, UnitState::Eliminated));
}

#[test]
fn an_engine_can_be_kept_for_a_rollback() {
    let g = grid(8, 8);
    let mut units = vec![
        at_gun(0, Side::Attacker, HexCoord::new(1, 1)),
        tank(1, Side::Defender, HexCoord::new(2, 1)),
    ];
    let mut e = engine();
    e.resolve_fire_phase(&g, &mut units, &[direct(0, 1)]);
    let mut kept = Engine { engine: e.engine.clone() };
    let mut again = units.clone();
    e.expire_shocks(&mut units);
    kept.expire_shocks(&mut again);
    assert!(units[1].shocked && again[1].shocked);
    assert_eq!(*kept.engine.params(), params());
}
