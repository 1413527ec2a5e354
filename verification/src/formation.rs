//! The formations that the tactic cards deploy in, and what makes a hex good
//! ground.
use vstd::prelude::*;
use crate::grid::HexGrid;
use crate::hex::HexCoord;
use crate::tactic::CombatTactic;

verus! {

/// The attacker's band: how far its front rank stands off the enemy zone, in
/// half hexes.
pub const ATK_FRONT_BAND: i64 = 7;

/// The defender's band, in half hexes.
pub const DEF_FRONT_BAND: i64 = 6;

/// One line of a formation: how many hexes it stands behind the front rank, and
/// its share of a division's line battalions in percent.
#[derive(Debug, Clone, Copy, PartialEq, Eq, Structural)]
pub struct Echelon {
    pub offset: i64,
    pub share: i64,
}

/// How the front is divided into sectors. Widths are given in percent.
#[derive(Debug, Clone, Copy, PartialEq, Eq, Structural)]
pub enum Shape {
    /// The whole front.
    Full,
    /// Only the middle of the front.
    CenterFocus(i64),
    /// Two wings.
    TwoWings(i64),
}

/// The formation of a card.
#[derive(Debug, PartialEq, Eq)]
pub struct DeployProfile {
    /// The band of the front rank, in half hexes.
    pub band: i64,
    pub echelons: Vec<Echelon>,
    pub shape: Shape,
    /// The line is loose: crowding counts half, and depth is free.
    pub loose: bool,
    /// Armour goes to the deepest echelon.
    pub armor_reserve: bool,
}

/// The formation of a card as a value.
#[verifier::ext_equal]
pub struct Formation {
    pub band: i64,
    pub echelons: Seq<Echelon>,
    pub shape: Shape,
    pub loose: bool,
    pub armor_reserve: bool,
}

impl View for DeployProfile {
    type V = Formation;

    open spec fn view(&self) -> Formation {
        Formation {
            band: self.band,
            echelons: self.echelons@,
            shape: self.shape,
            loose: self.loose,
            armor_reserve: self.armor_reserve,
        }
    }
}

/// Two echelons.
pub open spec fn two_lines(front: i64, rear: i64, offset: i64) -> Seq<Echelon> {
    seq![Echelon { offset: 0, share: front }, Echelon { offset, share: rear }]
}

/// A single echelon.
pub open spec fn one_line() -> Seq<Echelon> {
    seq![Echelon { offset: 0, share: 100 }]
}

/// A plain formation: full front, close order, no reserve of armour.
pub open spec fn plain_formation(band: i64, echelons: Seq<Echelon>) -> Formation {
    Formation { band, echelons, shape: Shape::Full, loose: false, armor_reserve: false }
}

/// How an attacker deploys under a card.
pub open spec fn attack_formation(tactic: CombatTactic) -> Formation {
    match tactic {
        CombatTactic::Blitz => Formation {
            shape: Shape::CenterFocus(70),
            ..plain_formation(ATK_FRONT_BAND, two_lines(60, 40, 2))
        },
        CombatTactic::MassCharge => plain_formation(ATK_FRONT_BAND, one_line()),
        CombatTactic::Encirclement => Formation {
            shape: Shape::TwoWings(30),
            ..plain_formation(ATK_FRONT_BAND, two_lines(80, 20, 2))
        },
        CombatTactic::InfiltrationAssault => Formation {
            loose: true,
            ..plain_formation((ATK_FRONT_BAND + 2) as i64, one_line())
        },
        _ => plain_formation(ATK_FRONT_BAND, two_lines(75, 25, 2)),
    }
}

/// How a defender deploys under a card.
pub open spec fn defence_formation(tactic: CombatTactic) -> Formation {
    match tactic {
        CombatTactic::Ambush => Formation {
            loose: true,
            ..plain_formation((DEF_FRONT_BAND + 2) as i64, one_line())
        },
        CombatTactic::GuerrillaTactics => Formation {
            loose: true,
            ..plain_formation((DEF_FRONT_BAND + 2) as i64, one_line())
        },
        CombatTactic::ElasticDefense => Formation {
            armor_reserve: true,
            ..plain_formation(DEF_FRONT_BAND, two_lines(65, 35, 2))
        },
        CombatTactic::Counterattack => Formation {
            armor_reserve: true,
            ..plain_formation(DEF_FRONT_BAND, two_lines(60, 40, 2))
        },
        CombatTactic::TacticalWithdrawal => plain_formation(
            DEF_FRONT_BAND,
            seq![
                Echelon { offset: 0, share: 35 },
                Echelon { offset: 3, share: 35 },
                Echelon { offset: 6, share: 30 },
            ],
        ),
        CombatTactic::Delay => plain_formation(DEF_FRONT_BAND, two_lines(50, 50, 2)),
        CombatTactic::OverwhelmingFire => plain_formation(DEF_FRONT_BAND, two_lines(85, 15, 2)),
        CombatTactic::Encirclement => Formation {
            shape: Shape::TwoWings(35),
            ..plain_formation(DEF_FRONT_BAND, two_lines(75, 25, 2))
        },
        _ => plain_formation(DEF_FRONT_BAND, two_lines(70, 30, 2)),
    }
}

/// How a side deploys under a card.
pub open spec fn formation_of(defending: bool, tactic: CombatTactic) -> Formation {
    if defending {
        defence_formation(tactic)
    } else {
        attack_formation(tactic)
    }
}

fn lines(front: i64, rear: i64) -> (v: Vec<Echelon>)
    ensures
        v@ == two_lines(front, rear, 2),
{
    let v: Vec<Echelon> = vec![Echelon { offset: 0, share: front }, Echelon { offset: 2, share: rear }];
    assert(v@ =~= two_lines(front, rear, 2));
    v
}

fn line() -> (v: Vec<Echelon>)
    ensures
        v@ == one_line(),
{
    let v: Vec<Echelon> = vec![Echelon { offset: 0, share: 100 }];
    assert(v@ =~= one_line());
    v
}

fn plain_profile(band: i64, echelons: Vec<Echelon>) -> (p: DeployProfile)
    ensures
        p@ == plain_formation(band, echelons@),
{
    DeployProfile { band, echelons, shape: Shape::Full, loose: false, armor_reserve: false }
}

fn attack_profile(tactic: CombatTactic) -> (p: DeployProfile)
    ensures
        p@ == attack_formation(tactic),
{
    match tactic {
        CombatTactic::Blitz => {
            let mut p = plain_profile(ATK_FRONT_BAND, lines(60, 40));
            p.shape = Shape::CenterFocus(70);
            p
        },
        CombatTactic::MassCharge => plain_profile(ATK_FRONT_BAND, line()),
        CombatTactic::Encirclement => {
            let mut p = plain_profile(ATK_FRONT_BAND, lines(80, 20));
            p.shape = Shape::TwoWings(30);
            p
        },
        CombatTactic::InfiltrationAssault => {
            let mut p = plain_profile(ATK_FRONT_BAND + 2, line());
            p.loose = true;
            p
        },
        _ => plain_profile(ATK_FRONT_BAND, lines(75, 25)),
    }
}

fn defence_profile(tactic: CombatTactic) -> (p: DeployProfile)
    ensures
        p@ == defence_formation(tactic),
{
    match tactic {
        CombatTactic::Ambush => {
            let mut p = plain_profile(DEF_FRONT_BAND + 2, line());
            p.loose = true;
            p
        },
        CombatTactic::GuerrillaTactics => {
            let mut p = plain_profile(DEF_FRONT_BAND + 2, line());
            p.loose = true;
            p
        },
        CombatTactic::ElasticDefense => {
            let mut p = plain_profile(DEF_FRONT_BAND, lines(65, 35));
            p.armor_reserve = true;
            p
        },
        CombatTactic::Counterattack => {
            let mut p = plain_profile(DEF_FRONT_BAND, lines(60, 40));
            p.armor_reserve = true;
            p
        },
        CombatTactic::TacticalWithdrawal => {
            let v: Vec<Echelon> = vec![
                Echelon { offset: 0, share: 35 },
                Echelon { offset: 3, share: 35 },
                Echelon { offset: 6, share: 30 },
            ];
            assert(v@ =~= seq![
                Echelon { offset: 0, share: 35 },
                Echelon { offset: 3, share: 35 },
                Echelon { offset: 6, share: 30 },
            ]);
            plain_profile(DEF_FRONT_BAND, v)
        },
        CombatTactic::Delay => plain_profile(DEF_FRONT_BAND, lines(50, 50)),
        CombatTactic::OverwhelmingFire => plain_profile(DEF_FRONT_BAND, lines(85, 15)),
        CombatTactic::Encirclement => {
            let mut p = plain_profile(DEF_FRONT_BAND, lines(75, 25));
            p.shape = Shape::TwoWings(35);
            p
        },
        _ => plain_profile(DEF_FRONT_BAND, lines(70, 30)),
    }
}

/// How a side deploys under a card.
pub fn profile_for(defending: bool, tactic: CombatTactic) -> (p: DeployProfile)
    ensures
        p@ == formation_of(defending, tactic),
{
    if defending {
        defence_profile(tactic)
    } else {
        attack_profile(tactic)
    }
}

/// The shares of the first `n` echelons together.
pub open spec fn share_upto(e: Seq<Echelon>, n: nat) -> int
    decreases n,
{
    if n == 0 {
        0
    } else {
        share_upto(e, (n - 1) as nat) + e[n - 1].share
    }
}

/// The echelon of the `i`-th of `total` battalions: the first whose share,
/// with those before it, reaches the middle of the battalion's slot; the last
/// where none does.
pub open spec fn echelon_from(e: Seq<Echelon>, i: int, total: int, n: nat) -> nat
    decreases e.len() - n,
{
    if n + 1 >= e.len() {
        (e.len() - 1) as nat
    } else if (2 * i + 1) * 100 <= 2 * total * share_upto(e, n + 1) {
        n
    } else {
        echelon_from(e, i, total, n + 1)
    }
}

/// The echelon of the `i`-th of `total` battalions.
pub fn choose_echelon(e: &Vec<Echelon>, i: usize, total: usize) -> (n: usize)
    requires
        0 < e@.len() <= 3,
        forall|k: int| 0 <= k < e@.len() ==> 0 <= (#[trigger] e@[k]).share <= 100,
    ensures
        n == echelon_from(e@, i as int, total as int, 0),
        n < e@.len(),
{
    let mut n: usize = 0;
    let mut sum: i128 = 0;
    while n + 1 < e.len()
        invariant
            0 < e@.len() <= 3,
            n < e@.len(),
            forall|k: int| 0 <= k < e@.len() ==> 0 <= (#[trigger] e@[k]).share <= 100,
            sum == share_upto(e@, n as nat),
            0 <= sum <= 100 * n,
            echelon_from(e@, i as int, total as int, 0) == echelon_from(
                e@,
                i as int,
                total as int,
                n as nat,
            ),
        decreases e@.len() - n,
    {
        sum = sum + e[n].share as i128;
        assert(sum == share_upto(e@, (n + 1) as nat));
        let need: i128 = (2 * (i as i128) + 1) * 100;
        assert(0 <= 2 * total * sum <= 2 * 0xffff_ffff_ffff_ffff * 300) by (nonlinear_arith)
            requires
                0 <= sum <= 300,
                0 <= total <= 0xffff_ffff_ffff_ffff,
        ;
        assert(2 * total * sum == (2 * total) * sum) by (nonlinear_arith);
        let have: i128 = 2 * (total as i128) * sum;
        if need <= have {
            return n;
        }
        n += 1;
    }
    n
}

/// Every formation has one to three echelons, whose shares make up the whole.
pub proof fn law_echelons_make_up_the_division(defending: bool, tactic: CombatTactic)
    ensures
        ({
            let e = formation_of(defending, tactic).echelons;
            &&& 1 <= e.len() <= 3
            &&& share_upto(e, e.len()) == 100
            &&& forall|k: int| 0 <= k < e.len() ==> 0 <= (#[trigger] e[k]).share <= 100
            &&& e[0].offset == 0
        }),
{
    reveal_with_fuel(share_upto, 4);
    let e = formation_of(defending, tactic).echelons;
    assert(e.len() <= 3);
    assert(share_upto(e, e.len()) == 100);
}

/// A hex of the line of sight is a river.
pub open spec fn crosses_river(g: &HexGrid, line: Seq<HexCoord>) -> bool {
    exists|i: int| 0 <= i < line.len() && g.river_at(#[trigger] line[i])
}

/// A river runs between a hex and the enemy, given the hexes between them.
pub fn river_between(g: &HexGrid, line: &Vec<HexCoord>) -> (b: bool)
    ensures
        b == crosses_river(g, line@),
{
    let mut i: usize = 0;
    while i < line.len()
        invariant
            i <= line@.len(),
            forall|j: int| 0 <= j < i ==> !g.river_at(#[trigger] line@[j]),
        decreases line@.len() - i,
    {
        if g.is_river(line[i]) {
            assert(g.river_at(line@[i as int]));
            return true;
        }
        i += 1;
    }
    false
}

/// How high a hex stands; off the map 0.
pub open spec fn height_at(g: &HexGrid, h: HexCoord) -> int {
    match g.at(h) {
        Some(c) => c.elevation as int,
        None => 0,
    }
}

/// How high a hex stands; off the map 0.
pub fn elevation_at(g: &HexGrid, h: HexCoord) -> (e: i64)
    ensures
        e == height_at(g, h),
{
    match g.cell(h) {
        Some(c) => c.elevation,
        None => 0,
    }
}

/// How many hexes towards the enemy a crest must stand above.
pub const CREST_REACH: usize = 4;

/// The hex is a crest towards the enemy, given the hexes between them: it rises
/// above the field, the enemy is not next to it, and the nearest hexes towards
/// the enemy are all lower.
pub open spec fn is_crest(g: &HexGrid, h: HexCoord, line: Seq<HexCoord>) -> bool {
    &&& height_at(g, h) >= 1
    &&& line.len() > 0
    &&& forall|i: int|
        0 <= i < line.len() && i < CREST_REACH ==> height_at(g, #[trigger] line[i]) < height_at(g, h)
}

/// The hex is a crest towards the enemy, given the hexes between them.
pub fn on_crest(g: &HexGrid, h: HexCoord, line: &Vec<HexCoord>) -> (b: bool)
    ensures
        b == is_crest(g, h, line@),
{
    let e: i64 = elevation_at(g, h);
    if e < 1 || line.len() == 0 {
        return false;
    }
    let mut i: usize = 0;
    while i < line.len() && i < CREST_REACH
        invariant
            i <= line@.len(),
            i <= CREST_REACH,
            e == height_at(g, h),
            forall|j: int| 0 <= j < i ==> height_at(g, #[trigger] line@[j]) < e,
        decreases line@.len() - i,
    {
        if elevation_at(g, line[i]) >= e {
            assert(height_at(g, line@[i as int]) >= e);
            return false;
        }
        i += 1;
    }
    true
}

/// The hex is in defilade: its own step towards the enemy stands higher.
pub open spec fn is_defiladed(g: &HexGrid, h: HexCoord, toward: Option<HexCoord>) -> bool {
    toward matches Some(s) && height_at(g, s) > height_at(g, h)
}

/// The hex is in defilade, given its own step towards the enemy.
pub fn defiladed(g: &HexGrid, h: HexCoord, toward: Option<HexCoord>) -> (b: bool)
    ensures
        b == is_defiladed(g, h, toward),
{
    match toward {
        Some(s) => elevation_at(g, s) > elevation_at(g, h),
        None => false,
    }
}

/// A neighbour of the hex is a river.
pub open spec fn on_bank(g: &HexGrid, h: HexCoord) -> bool {
    exists|i: int| 0 <= i < g.around(h).len() && g.river_at(#[trigger] g.around(h)[i])
}

/// A neighbour of the hex is a river.
pub fn adjacent_river(g: &HexGrid, h: HexCoord) -> (b: bool)
    ensures
        b == on_bank(g, h),
{
    let around: Vec<HexCoord> = g.neighbors(h);
    let mut i: usize = 0;
    while i < around.len()
        invariant
            i <= around@.len(),
            around@ == g.around(h),
            forall|j: int| 0 <= j < i ==> !g.river_at(#[trigger] around@[j]),
        decreases around@.len() - i,
    {
        if g.is_river(around[i]) {
            assert(g.river_at(around@[i as int]));
            return true;
        }
        i += 1;
    }
    false
}

/// What counts for a hex as ground to deploy on.
#[derive(Debug, Clone, Copy, PartialEq, Eq, Structural)]
pub struct GroundTerms {
    /// Cover counts three times.
    pub lurk: bool,
    /// A defender's city hex.
    pub city: bool,
    /// A river shields the hex from the enemy.
    pub shield: bool,
    /// The shield counts twice.
    pub double_shield: bool,
    /// The bank of a river that is to be defended.
    pub bank: bool,
    /// The hex lies behind a slope.
    pub defilade: bool,
}

/// What counts for a hex as ground to deploy on under a card.
pub open spec fn ground_of(
    g: &HexGrid,
    defending: bool,
    tactic: CombatTactic,
    h: HexCoord,
    line: Seq<HexCoord>,
    toward: Option<HexCoord>,
) -> GroundTerms {
    GroundTerms {
        lurk: defending && tactic == CombatTactic::Ambush,
        city: defending && g.urban_at(h),
        shield: crosses_river(g, line),
        double_shield: defending && tactic == CombatTactic::RiverDefense,
        bank: defending && tactic == CombatTactic::RiverDefense && on_bank(g, h),
        defilade: is_defiladed(g, h, toward),
    }
}

/// What counts for a hex as ground to deploy on, given the hexes between it and
/// the enemy and its own step towards the enemy.
pub fn ground_terms(
    g: &HexGrid,
    defending: bool,
    tactic: CombatTactic,
    h: HexCoord,
    line: &Vec<HexCoord>,
    toward: Option<HexCoord>,
) -> (t: GroundTerms)
    ensures
        t == ground_of(g, defending, tactic, h, line@, toward),
{
    let ambush = match tactic {
        CombatTactic::Ambush => true,
        _ => false,
    };
    let river = match tactic {
        CombatTactic::RiverDefense => true,
        _ => false,
    };
    GroundTerms {
        lurk: defending && ambush,
        city: defending && g.is_urban(h),
        shield: river_between(g, line),
        double_shield: defending && river,
        bank: defending && river && adjacent_river(g, h),
        defilade: defiladed(g, h, toward),
    }
}

} // verus!
