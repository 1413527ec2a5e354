//! What a planner sees in one turn, and what it is told.
//!
//! Planning is pure: the field does not change while a turn is planned. What
//! the logic cannot work out itself (routes and their travel times, damage
//! estimates, random draws) it looks up in a book of facts. A decision that
//! needs a fact that the book does not hold asks for it; the caller finds it,
//! writes it into the book and plans again.
use vstd::prelude::*;
use crate::action::{AiAction, Act};
use crate::grid::HexGrid;
use crate::hex::{hex_distance, HexCoord};
use crate::pick::{count_where, find_least, first_where, least, Key};
use crate::tactic::CombatTactic;
use crate::unit::{BattalionUnit, Side, UnitState};

verus! {

/// How a one-hex step is scored; the score of a step, lower is better, is
/// reckoned outside from these terms and the hours that the step takes.
#[derive(Debug, Clone, Copy, PartialEq, Eq, Structural)]
pub enum StepScore {
    /// Away from the enemy, out of fords: a hundred less for each hex of
    /// distance, a hundred more for a ford, and the hours.
    Withdraw,
    /// Away from the enemy on a leash: a hundred less for each hex of distance,
    /// fifty more for each hex beyond the leash, and the hours.
    Shadow,
    /// Away from the enemy: a hundred less for each hex of distance, and the
    /// hours.
    Evade,
    /// Towards a goal: a hundred for each hex of distance, and the hours.
    Close,
    /// Away from the enemy into cover: a hundred less for each hex of distance,
    /// the hours, and thirty times the cover less.
    FallBack,
    /// Into cover: a hundred times the cover less, and the hours.
    Cover,
}

/// Something that a decision has to be told. Battalions of the own side are
/// given by their index in it, enemies by theirs.
#[derive(Debug, Clone, Copy, PartialEq, Eq, Structural)]
pub enum Query {
    /// The cheapest path of a battalion to a hex.
    Route { who: usize, dest: HexCoord },
    /// The score of a one-hex step and its hours, or that it cannot be taken.
    Step { who: usize, hex: HexCoord, score: StepScore, distance: i64, beyond: i64 },
    /// Whether an assault is worth its trade: the volley is expected to break
    /// the enemy, or the return fire to cost at most one and a half times what
    /// is dealt.
    Trade { who: usize, foe: usize },
    /// The expected organisation damage of the volley of all battalions that
    /// could assault the enemy together.
    Volley { foe: usize },
    /// The expected organisation damage of a battery's mission at the enemy, at
    /// its full strength or at the share of area fire on its aim hex.
    Barrage { who: usize, foe: usize, full: bool },
    /// Whether two missions of a battery are as good as one another, both at its
    /// full strength or both at the share of area fire on their aim hexes.
    Even { who: usize, foe: usize, best: usize, full: bool },
    /// A random draw below a number.
    Draw { who: usize, below: usize },
    /// The waypoint past the enemy's left or right flank.
    Waypoint { left: bool },
    /// Whether a river lies between a hex and a threat.
    Shielded { from: HexCoord, threat: HexCoord },
    /// The share of a pool that a flag's part of all progress comes to.
    Share { pool: usize, progress: i32, total: i128 },
    /// The hex of a flag's zone that is nearest to a battalion.
    NearestHex { flag: usize, who: usize },
    /// How far a battalion is from the centre of its headquarters' division.
    OffCentre { hq: usize, member: usize },
}

/// An answer. Quantities that are not whole are given by integers that order
/// as they do, with 0 for zero.
#[derive(Debug, Clone, Copy, PartialEq, Eq, Structural)]
pub enum Fact {
    No,
    Yes,
    Number(i64),
    Pair(i64, i64),
    Hex(HexCoord),
}

/// A battalion's cheapest path to a hex and its cost; empty where there is
/// none.
#[derive(Debug, PartialEq, Eq)]
pub struct Route {
    pub who: usize,
    pub dest: HexCoord,
    pub path: Vec<HexCoord>,
    pub cost: i64,
}

/// What the planner has been told.
#[derive(Debug, PartialEq, Eq)]
pub struct Book {
    pub routes: Vec<Route>,
    pub facts: Vec<(Query, Fact)>,
}

/// A goal given to a division by the player.
#[derive(Debug, Clone, Copy, PartialEq, Eq, Structural)]
pub enum DivOrderTarget {
    /// March on the hex and hold it.
    Seize { hex: HexCoord },
    /// Pursue a battalion through its last known position.
    Engage { unit: usize, last_pos: HexCoord },
}

/// A hex of a zone, and how far it is from the centre of the zones that it is
/// chosen from.
#[derive(Debug, Clone, Copy, PartialEq, Eq, Structural)]
pub struct Spot {
    pub hex: HexCoord,
    pub off_centre: i64,
}

/// A flag: its zone, the hex that it stands on, and how far its capture has
/// come.
#[derive(Debug, PartialEq, Eq)]
pub struct FlagZone {
    pub zone: Vec<Spot>,
    pub anchor: HexCoord,
    pub progress: i32,
}

/// The planner's numbers.
#[derive(Debug, Clone, Copy, PartialEq, Eq, Structural)]
pub struct PlannerParams {
    /// The progress at which a flag is captured.
    pub flag_progress_cap: i32,
    /// How far a division under orders looks for the enemy.
    pub div_sensor_radius: i32,
    /// How far a headquarters commands.
    pub hq_aura_radius: i32,
}

/// One side's view of the field at the start of its turn.
pub struct Turn<'a> {
    pub grid: &'a HexGrid,
    pub side: Side,
    pub tactic: CombatTactic,
    pub params: PlannerParams,
    /// The battalions to command.
    pub own: Vec<BattalionUnit>,
    /// The enemies in sight that count as targets.
    pub enemy: Vec<BattalionUnit>,
    /// Battalions of the same side that are not to be commanded.
    pub passive: Vec<BattalionUnit>,
    /// All battalions that hold hexes, as far as they are in sight.
    pub all: Vec<BattalionUnit>,
    /// The enemy's battalions, in sight or not.
    pub physical_foes: Vec<BattalionUnit>,
    /// What is known of the enemy's deployment zone.
    pub intel: &'a Vec<Spot>,
    pub flags: &'a Vec<FlagZone>,
    /// The player's order to the division.
    pub order: Option<DivOrderTarget>,
    /// Whether the enemy's power is more than three times the side's own.
    pub outmatched: bool,
    /// The hexes two steps away, as offsets, in the order in which they are
    /// listed.
    pub second_ring: &'a Vec<HexCoord>,
}

/// One side's view of the field as a value.
#[verifier::ext_equal]
pub struct TurnView<'a> {
    pub grid: &'a HexGrid,
    pub side: Side,
    pub tactic: CombatTactic,
    pub params: PlannerParams,
    pub own: Seq<BattalionUnit>,
    pub enemy: Seq<BattalionUnit>,
    pub passive: Seq<BattalionUnit>,
    pub all: Seq<BattalionUnit>,
    pub physical_foes: Seq<BattalionUnit>,
    pub intel: Seq<Spot>,
    pub flags: Seq<FlagZone>,
    pub order: Option<DivOrderTarget>,
    pub outmatched: bool,
    pub second_ring: Seq<HexCoord>,
}

impl<'a> View for Turn<'a> {
    type V = TurnView<'a>;

    open spec fn view(&self) -> TurnView<'a> {
        TurnView {
            grid: self.grid,
            side: self.side,
            tactic: self.tactic,
            params: self.params,
            own: self.own@,
            enemy: self.enemy@,
            passive: self.passive@,
            all: self.all@,
            physical_foes: self.physical_foes@,
            intel: self.intel@,
            flags: self.flags@,
            order: self.order,
            outmatched: self.outmatched,
            second_ring: self.second_ring@,
        }
    }
}

/// Where there is no enemy, the enemy is this far.
pub const FAR: i64 = 0x7fff_ffff;

/// The entries that answer a query.
pub open spec fn answers(q: Query) -> spec_fn((Query, Fact)) -> bool {
    |e: (Query, Fact)| e.0 == q
}

/// The answer to a query, if the book holds one.
pub open spec fn answer(b: &Book, q: Query) -> Option<Fact> {
    match first_where(b.facts@, answers(q)) {
        Some(i) => Some(b.facts@[i].1),
        None => None,
    }
}

/// Whether something is so.
pub open spec fn truth(b: &Book, q: Query) -> Result<bool, Query> {
    match answer(b, q) {
        Some(Fact::Yes) => Ok(true),
        Some(Fact::No) => Ok(false),
        _ => Err(q),
    }
}

/// A quantity.
pub open spec fn number(b: &Book, q: Query) -> Result<i64, Query> {
    match answer(b, q) {
        Some(Fact::Number(n)) => Ok(n),
        _ => Err(q),
    }
}

/// Two quantities, if there are any.
pub open spec fn pair(b: &Book, q: Query) -> Result<Option<(i64, i64)>, Query> {
    match answer(b, q) {
        Some(Fact::Pair(m, n)) => Ok(Some((m, n))),
        Some(Fact::No) => Ok(None),
        _ => Err(q),
    }
}

/// A hex, if there is any.
pub open spec fn place(b: &Book, q: Query) -> Result<Option<HexCoord>, Query> {
    match answer(b, q) {
        Some(Fact::Hex(h)) => Ok(Some(h)),
        Some(Fact::No) => Ok(None),
        _ => Err(q),
    }
}

/// The place in the book of a battalion's path to a hex, if it has one.
pub open spec fn route_at(b: &Book, who: int, dest: HexCoord) -> Result<Option<int>, Query> {
    match first_where(b.routes@, |r: Route| r.who == who && r.dest == dest) {
        Some(i) => if b.routes@[i].path@.len() == 0 {
            Ok(None)
        } else {
            Ok(Some(i))
        },
        None => Err(Query::Route { who: who as usize, dest }),
    }
}

impl Book {
    /// Every path leads to where it is said to lead.
    pub open spec fn valid(&self) -> bool {
        forall|i: int|
            0 <= i < self.routes@.len() && (#[trigger] self.routes@[i]).path@.len() > 0
                ==> self.routes@[i].path@.last() == self.routes@[i].dest
    }

    pub fn answer(&self, q: Query) -> (f: Option<Fact>)
        ensures
            f == answer(self, q),
    {
        let ghost ok = answers(q);
        let mut i: usize = 0;
        while i < self.facts.len()
            invariant
                i <= self.facts@.len(),
                ok == answers(q),
                forall|j: int| 0 <= j < i ==> !ok(#[trigger] self.facts@[j]),
            decreases self.facts@.len() - i,
        {
            if self.facts[i].0 == q {
                proof {
                    crate::pick::law_first_where(self.facts@, ok);
                    assert(ok(self.facts@[i as int]));
                }
                return Some(self.facts[i].1);
            }
            i += 1;
        }
        proof {
            crate::pick::law_first_where(self.facts@, ok);
        }
        None
    }

    pub fn truth(&self, q: Query) -> (r: Result<bool, Query>)
        ensures
            r == truth(self, q),
    {
        match self.answer(q) {
            Some(Fact::Yes) => Ok(true),
            Some(Fact::No) => Ok(false),
            _ => Err(q),
        }
    }

    pub fn number(&self, q: Query) -> (r: Result<i64, Query>)
        ensures
            r == number(self, q),
    {
        match self.answer(q) {
            Some(Fact::Number(n)) => Ok(n),
            _ => Err(q),
        }
    }

    pub fn pair(&self, q: Query) -> (r: Result<Option<(i64, i64)>, Query>)
        ensures
            r == pair(self, q),
    {
        match self.answer(q) {
            Some(Fact::Pair(m, n)) => Ok(Some((m, n))),
            Some(Fact::No) => Ok(None),
            _ => Err(q),
        }
    }

    pub fn place(&self, q: Query) -> (r: Result<Option<HexCoord>, Query>)
        ensures
            r == place(self, q),
    {
        match self.answer(q) {
            Some(Fact::Hex(h)) => Ok(Some(h)),
            Some(Fact::No) => Ok(None),
            _ => Err(q),
        }
    }

    /// The place in the book of a battalion's path to a hex, if it has one.
    pub fn route(&self, who: usize, dest: HexCoord) -> (r: Result<Option<usize>, Query>)
        ensures
            match r {
                Ok(Some(i)) => route_at(self, who as int, dest) == Ok::<Option<int>, Query>(
                    Some(i as int),
                ) && i < self.routes@.len() && self.routes@[i as int].path@.len() > 0,
                Ok(None) => route_at(self, who as int, dest) == Ok::<Option<int>, Query>(None),
                Err(q) => route_at(self, who as int, dest) == Err::<Option<int>, Query>(q),
            },
    {
        let ghost ok = |r: Route| r.who == who as int && r.dest == dest;
        let mut i: usize = 0;
        while i < self.routes.len()
            invariant
                i <= self.routes@.len(),
                ok == (|r: Route| r.who == who as int && r.dest == dest),
                forall|j: int| 0 <= j < i ==> !ok(#[trigger] self.routes@[j]),
            decreases self.routes@.len() - i,
        {
            if self.routes[i].who == who && self.routes[i].dest == dest {
                proof {
                    crate::pick::law_first_where(self.routes@, ok);
                    assert(ok(self.routes@[i as int]));
                }
                if self.routes[i].path.len() == 0 {
                    return Ok(None);
                }
                return Ok(Some(i));
            }
            i += 1;
        }
        proof {
            crate::pick::law_first_where(self.routes@, ok);
        }
        Err(Query::Route { who, dest })
    }
}

/// The lesser of two distances.
pub open spec fn nearer(a: int, b: int) -> int {
    if a < b {
        a
    } else {
        b
    }
}

/// How far the nearest battalion that is `ok` is from `h`.
pub open spec fn gap_to(
    units: Seq<BattalionUnit>,
    ok: spec_fn(BattalionUnit) -> bool,
    h: HexCoord,
) -> int
    decreases units.len(),
{
    if units.len() == 0 {
        FAR as int
    } else {
        let rest = gap_to(units.drop_last(), ok, h);
        if ok(units.last()) {
            nearer(hex_distance(h, units.last().position), rest)
        } else {
            rest
        }
    }
}

/// The battalions that fight.
pub open spec fn fighting() -> spec_fn(BattalionUnit) -> bool {
    |u: BattalionUnit| u.effective()
}

/// The battalions that draw fire: those that fight, and those in rout.
pub open spec fn drawing_fire() -> spec_fn(BattalionUnit) -> bool {
    |u: BattalionUnit| u.effective() || u.state == UnitState::Retreating
}

/// How far the nearest enemy that fights is.
pub open spec fn enemy_distance(enemy: Seq<BattalionUnit>, h: HexCoord) -> int {
    gap_to(enemy, fighting(), h)
}

/// How far the nearest enemy that draws fire is.
pub open spec fn fire_distance(enemy: Seq<BattalionUnit>, h: HexCoord) -> int {
    gap_to(enemy, drawing_fire(), h)
}

/// How far the nearest enemy that fights is.
pub fn min_enemy_dist(h: HexCoord, enemy: &Vec<BattalionUnit>) -> (d: i64)
    ensures
        d == enemy_distance(enemy@, h),
        0 <= d <= FAR,
{
    let mut d: i64 = FAR;
    let mut i: usize = 0;
    assert(enemy@.take(0) =~= Seq::<BattalionUnit>::empty());
    while i < enemy.len()
        invariant
            i <= enemy@.len(),
            d == gap_to(enemy@.take(i as int), fighting(), h),
            0 <= d <= FAR,
        decreases enemy@.len() - i,
    {
        assert(enemy@.take(i + 1).drop_last() =~= enemy@.take(i as int));
        if enemy[i].is_combat_effective() {
            let e: i64 = h.distance(enemy[i].position);
            if e < d {
                d = e;
            }
        }
        i += 1;
    }
    assert(enemy@.take(enemy@.len() as int) =~= enemy@);
    d
}

/// How far the nearest enemy that draws fire is.
pub fn min_enemy_dist_incl_retreating(h: HexCoord, enemy: &Vec<BattalionUnit>) -> (d: i64)
    ensures
        d == fire_distance(enemy@, h),
        0 <= d <= FAR,
{
    let mut d: i64 = FAR;
    let mut i: usize = 0;
    assert(enemy@.take(0) =~= Seq::<BattalionUnit>::empty());
    while i < enemy.len()
        invariant
            i <= enemy@.len(),
            d == gap_to(enemy@.take(i as int), drawing_fire(), h),
            0 <= d <= FAR,
        decreases enemy@.len() - i,
    {
        assert(enemy@.take(i + 1).drop_last() =~= enemy@.take(i as int));
        if enemy[i].is_combat_effective() || enemy[i].state == UnitState::Retreating {
            let e: i64 = h.distance(enemy[i].position);
            if e < d {
                d = e;
            }
        }
        i += 1;
    }
    assert(enemy@.take(enemy@.len() as int) =~= enemy@);
    d
}

/// An enemy that fights stands next to the hex.
pub open spec fn in_contact_at(enemy: Seq<BattalionUnit>, h: HexCoord) -> bool {
    exists|i: int|
        0 <= i < enemy.len() && (#[trigger] enemy[i]).effective() && hex_distance(h, enemy[i].position)
            == 1
}

/// An enemy that fights stands next to the battalion.
pub fn contact_foe(unit: &BattalionUnit, enemy: &Vec<BattalionUnit>) -> (b: bool)
    ensures
        b == in_contact_at(enemy@, unit.position),
{
    let mut i: usize = 0;
    while i < enemy.len()
        invariant
            i <= enemy@.len(),
            forall|j: int|
                0 <= j < i ==> !((#[trigger] enemy@[j]).effective() && hex_distance(
                    unit.position,
                    enemy@[j].position,
                ) == 1),
        decreases enemy@.len() - i,
    {
        if enemy[i].is_combat_effective() && unit.position.distance(enemy[i].position) == 1 {
            assert(enemy@[i as int].effective());
            return true;
        }
        i += 1;
    }
    false
}

/// The battalions that support `target`: others that fight next to it.
pub open spec fn supports(target: BattalionUnit) -> spec_fn(BattalionUnit) -> bool {
    |e: BattalionUnit|
        e.id != target.id && e.effective() && hex_distance(e.position, target.position) == 1
}

/// How many battalions support `target`.
pub open spec fn support(enemy: Seq<BattalionUnit>, target: BattalionUnit) -> nat {
    count_where(enemy, supports(target))
}

/// How many battalions support `target`.
pub fn adjacent_enemy_friends(target: &BattalionUnit, enemy: &Vec<BattalionUnit>) -> (n: usize)
    ensures
        n == support(enemy@, *target),
        n <= enemy@.len(),
{
    let mut n: usize = 0;
    let mut i: usize = 0;
    assert(enemy@.take(0) =~= Seq::<BattalionUnit>::empty());
    while i < enemy.len()
        invariant
            i <= enemy@.len(),
            n <= i,
            n == count_where(enemy@.take(i as int), supports(*target)),
        decreases enemy@.len() - i,
    {
        assert(enemy@.take(i + 1).drop_last() =~= enemy@.take(i as int));
        if enemy[i].id != target.id && enemy[i].is_combat_effective() && enemy[i].position.distance(
            target.position,
        ) == 1 {
            n += 1;
        }
        i += 1;
    }
    assert(enemy@.take(enemy@.len() as int) =~= enemy@);
    n
}

/// The enemies ranked by nearness to `h`, then by id.
pub open spec fn nearness_keys(enemy: Seq<BattalionUnit>, h: HexCoord) -> Seq<Option<Key>> {
    Seq::new(
        enemy.len(),
        |i: int|
            if enemy[i].effective() {
                Some(
                    Key {
                        a: hex_distance(h, enemy[i].position) as i128,
                        b: enemy[i].id as i128,
                        c: 0,
                        d: 0,
                    },
                )
            } else {
                None
            },
    )
}

/// Where the nearest enemy that fights stands.
pub open spec fn nearest_enemy_hex(enemy: Seq<BattalionUnit>, h: HexCoord) -> Option<HexCoord> {
    match least(nearness_keys(enemy, h)) {
        Some(i) => Some(enemy[i].position),
        None => None,
    }
}

/// Where the nearest enemy that fights stands.
pub fn nearest_enemy(h: HexCoord, enemy: &Vec<BattalionUnit>) -> (p: Option<HexCoord>)
    ensures
        p == nearest_enemy_hex(enemy@, h),
{
    let mut keys: Vec<Option<Key>> = Vec::new();
    let mut i: usize = 0;
    while i < enemy.len()
        invariant
            i <= enemy@.len(),
            keys@ =~= nearness_keys(enemy@, h).take(i as int),
        decreases enemy@.len() - i,
    {
        if enemy[i].is_combat_effective() {
            let d: i64 = h.distance(enemy[i].position);
            keys.push(Some(Key { a: d as i128, b: enemy[i].id as i128, c: 0, d: 0 }));
        } else {
            keys.push(None);
        }
        i += 1;
    }
    assert(keys@ =~= nearness_keys(enemy@, h));
    match find_least(&keys) {
        Some(k) => Some(enemy[k].position),
        None => None,
    }
}

/// The enemies ranked by how little support they have, then by nearness to
/// `h`, then by id.
pub open spec fn isolation_keys(enemy: Seq<BattalionUnit>, h: HexCoord) -> Seq<Option<Key>> {
    Seq::new(
        enemy.len(),
        |i: int|
            if enemy[i].effective() {
                Some(
                    Key {
                        a: support(enemy, enemy[i]) as i128,
                        b: hex_distance(h, enemy[i].position) as i128,
                        c: enemy[i].id as i128,
                        d: 0,
                    },
                )
            } else {
                None
            },
    )
}

/// Where the most isolated enemy that fights stands.
pub open spec fn isolated_enemy_hex(enemy: Seq<BattalionUnit>, h: HexCoord) -> Option<HexCoord> {
    match least(isolation_keys(enemy, h)) {
        Some(i) => Some(enemy[i].position),
        None => None,
    }
}

/// Where the most isolated enemy that fights stands.
pub fn most_isolated_enemy(h: HexCoord, enemy: &Vec<BattalionUnit>) -> (p: Option<HexCoord>)
    ensures
        p == isolated_enemy_hex(enemy@, h),
{
    let mut keys: Vec<Option<Key>> = Vec::new();
    let mut i: usize = 0;
    while i < enemy.len()
        invariant
            i <= enemy@.len(),
            keys@ =~= isolation_keys(enemy@, h).take(i as int),
        decreases enemy@.len() - i,
    {
        if enemy[i].is_combat_effective() {
            let d: i64 = h.distance(enemy[i].position);
            let n: usize = adjacent_enemy_friends(&enemy[i], enemy);
            keys.push(Some(Key { a: n as i128, b: d as i128, c: enemy[i].id as i128, d: 0 }));
        } else {
            keys.push(None);
        }
        i += 1;
    }
    assert(keys@ =~= isolation_keys(enemy@, h));
    match find_least(&keys) {
        Some(k) => Some(enemy[k].position),
        None => None,
    }
}

/// The hex is claimed.
pub fn is_reserved(reserved: &Vec<HexCoord>, h: HexCoord) -> (b: bool)
    ensures
        b == reserved@.contains(h),
{
    let mut i: usize = 0;
    while i < reserved.len()
        invariant
            i <= reserved@.len(),
            forall|j: int| 0 <= j < i ==> reserved@[j] != h,
        decreases reserved@.len() - i,
    {
        if reserved[i] == h {
            assert(reserved@[i as int] == h);
            return true;
        }
        i += 1;
    }
    false
}

/// A battalion other than `id` that fights stands on the hex.
pub open spec fn held_by_other(all: Seq<BattalionUnit>, id: usize, h: HexCoord) -> bool {
    exists|i: int|
        0 <= i < all.len() && (#[trigger] all[i]).id != id && all[i].effective() && all[i].position == h
}

/// A battalion other than `id` that fights stands on the hex.
pub fn is_held_by_other(all: &Vec<BattalionUnit>, id: usize, h: HexCoord) -> (b: bool)
    ensures
        b == held_by_other(all@, id, h),
{
    let mut i: usize = 0;
    while i < all.len()
        invariant
            i <= all@.len(),
            forall|j: int|
                0 <= j < i ==> !((#[trigger] all@[j]).id != id && all@[j].effective() && all@[j].position
                    == h),
        decreases all@.len() - i,
    {
        if all[i].id != id && all[i].is_combat_effective() && all[i].position == h {
            assert(all@[i as int].id != id);
            return true;
        }
        i += 1;
    }
    false
}

/// A battalion that fights stands on the hex.
pub open spec fn held(all: Seq<BattalionUnit>, h: HexCoord) -> bool {
    exists|i: int| 0 <= i < all.len() && (#[trigger] all[i]).effective() && all[i].position == h
}

/// A battalion that fights stands on the hex.
pub fn is_held(all: &Vec<BattalionUnit>, h: HexCoord) -> (b: bool)
    ensures
        b == held(all@, h),
{
    let mut i: usize = 0;
    while i < all.len()
        invariant
            i <= all@.len(),
            forall|j: int| 0 <= j < i ==> !((#[trigger] all@[j]).effective() && all@[j].position == h),
        decreases all@.len() - i,
    {
        if all[i].is_combat_effective() && all[i].position == h {
            assert(all@[i as int].effective());
            return true;
        }
        i += 1;
    }
    false
}

/// A battalion that fights is among them.
pub open spec fn any_fighting(units: Seq<BattalionUnit>) -> bool {
    exists|i: int| 0 <= i < units.len() && (#[trigger] units[i]).effective()
}

/// A battalion that fights is among them.
pub fn has_fighting(units: &Vec<BattalionUnit>) -> (b: bool)
    ensures
        b == any_fighting(units@),
{
    let mut i: usize = 0;
    while i < units.len()
        invariant
            i <= units@.len(),
            forall|j: int| 0 <= j < i ==> !(#[trigger] units@[j]).effective(),
        decreases units@.len() - i,
    {
        if units[i].is_combat_effective() {
            assert(units@[i as int].effective());
            return true;
        }
        i += 1;
    }
    false
}

/// What a decision comes to, as a value.
pub open spec fn decided(r: Result<AiAction, Query>) -> Result<Act, Query> {
    match r {
        Ok(a) => Ok(a@),
        Err(q) => Err(q),
    }
}

/// What a proposal comes to, as a value.
pub open spec fn proposed(r: Result<Option<AiAction>, Query>) -> Result<Option<Act>, Query> {
    match r {
        Ok(Some(a)) => Ok(Some(a@)),
        Ok(None) => Ok(None),
        Err(q) => Err(q),
    }
}

/// The proposal, or else to hold.
pub open spec fn or_hold(r: Result<Option<Act>, Query>, id: usize) -> Result<Act, Query> {
    match r {
        Ok(Some(a)) => Ok(a),
        Ok(None) => Ok(Act::Hold { unit_id: id }),
        Err(q) => Err(q),
    }
}

/// The proposal, or else to hold.
pub fn else_hold(r: Result<Option<AiAction>, Query>, id: usize) -> (a: Result<AiAction, Query>)
    ensures
        decided(a) == or_hold(proposed(r), id),
{
    match r {
        Ok(Some(a)) => Ok(a),
        Ok(None) => Ok(AiAction::Hold { unit_id: id }),
        Err(q) => Err(q),
    }
}

/// The keys of candidates that have to be asked about, in order; the first
/// question without an answer is asked.
pub open spec fn gathered<A, Q>(s: Seq<A>, f: spec_fn(A) -> Result<Option<Key>, Q>) -> Result<
    Seq<Option<Key>>,
    Q,
>
    decreases s.len(),
{
    if s.len() == 0 {
        Ok(Seq::empty())
    } else {
        match gathered(s.drop_last(), f) {
            Err(q) => Err(q),
            Ok(keys) => match f(s.last()) {
                Err(q) => Err(q),
                Ok(k) => Ok(keys.push(k)),
            },
        }
    }
}

/// A question that comes up early is asked whatever comes later.
pub proof fn lemma_gathered_asks<A, Q>(s: Seq<A>, f: spec_fn(A) -> Result<Option<Key>, Q>, i: int, q: Q)
    requires
        0 <= i <= s.len(),
        gathered(s.take(i), f) == Err::<Seq<Option<Key>>, Q>(q),
    ensures
        gathered(s, f) == Err::<Seq<Option<Key>>, Q>(q),
    decreases s.len() - i,
{
    if i == s.len() {
        assert(s.take(i) =~= s);
    } else {
        assert(s.take(i + 1).drop_last() =~= s.take(i));
        lemma_gathered_asks(s, f, i + 1, q);
    }
}

/// As many keys are gathered as there are candidates.
pub proof fn lemma_gathered_len<A, Q>(s: Seq<A>, f: spec_fn(A) -> Result<Option<Key>, Q>)
    ensures
        gathered(s, f) matches Ok(keys) ==> keys.len() == s.len() && forall|i: int|
            0 <= i < s.len() ==> f(s[i]) == Ok::<Option<Key>, Q>(#[trigger] keys[i]),
    decreases s.len(),
{
    if s.len() > 0 {
        lemma_gathered_len(s.drop_last(), f);
        if let Ok(keys) = gathered(s, f) {
            let rest = keys.drop_last();
            assert forall|i: int| 0 <= i < s.len() implies f(s[i]) == Ok::<Option<Key>, Q>(
                #[trigger] keys[i],
            ) by {
                if i < s.len() - 1 {
                    assert(rest[i] == keys[i]);
                    assert(s.drop_last()[i] == s[i]);
                }
            }
        }
    }
}

} // verus!
