//! Whether and whom a battalion assaults.
use vstd::prelude::*;
use crate::action::{AiAction, Act};
use crate::hex::{hex_distance, HexCoord};
use crate::march::{cover_at, ground_cover};
use crate::pick::{count_where, find_least, first_where, law_first_where, least, those_where, Key};
use crate::retreat::{find_unit, unit_index};
use crate::tactic::CombatTactic;
use crate::turn::{
    adjacent_enemy_friends, number, proposed, support, truth, Book, DivOrderTarget, Query, Turn, TurnView,
};
use crate::unit::{BattalionUnit, UnitState};

verus! {

/// Below this share of organisation, 0.4 by its bit pattern, a garrison is
/// beaten.
pub const BEATEN_ORG_RATIO: u32 = 0x3ecc_cccd;

/// Half of the full organisation, 0.5 by its bit pattern.
pub const HALF_ORG_RATIO: u32 = 0x3f00_0000;

/// From this cover on, 0.30, ground is strong.
pub const STRONG_COVER: i64 = 0x3e99_999a;

/// At this ratio a battalion is outnumbered.
pub const REFUSE_ODDS: i128 = 3;

/// How many battalions of the side, commanded or not, are `ok`.
pub open spec fn among(t: TurnView, ok: spec_fn(BattalionUnit) -> bool) -> nat {
    count_where(t.own, ok) + count_where(t.passive, ok)
}

/// The battalions next to a hex.
pub open spec fn next_to(h: HexCoord) -> spec_fn(BattalionUnit) -> bool {
    |u: BattalionUnit| hex_distance(u.position, h) == 1
}

/// The battalions that fight on a hex or next to it, without the one `id`.
pub open spec fn backing(id: usize, h: HexCoord) -> spec_fn(BattalionUnit) -> bool {
    |u: BattalionUnit| u.id != id && u.effective() && hex_distance(u.position, h) <= 1
}

/// The battalions that fight on a hex or next to it.
pub open spec fn fighting_round(h: HexCoord) -> spec_fn(BattalionUnit) -> bool {
    |u: BattalionUnit| u.effective() && hex_distance(u.position, h) <= 1
}

/// The battalions that can join an assault on a hex.
pub open spec fn joining(h: HexCoord) -> spec_fn(BattalionUnit) -> bool {
    |u: BattalionUnit| u.effective() && u.can_assault && hex_distance(u.position, h) == 1
}

/// The enemy is in sight.
pub open spec fn in_sight(t: TurnView, e: BattalionUnit) -> bool {
    exists|i: int| 0 <= i < t.enemy.len() && (#[trigger] t.enemy[i]).id == e.id
}

/// A division under orders fights whatever stands in its way.
pub open spec fn fights_through(t: TurnView, u: BattalionUnit, e: BattalionUnit) -> bool {
    t.order is Some && e.effective() && hex_distance(u.position, e.position) == 1
}

/// The card allows to assault the enemy at all.
pub open spec fn permitted(t: TurnView, e: BattalionUnit) -> bool {
    match t.tactic {
        CombatTactic::TacticalWithdrawal => false,
        CombatTactic::OverwhelmingFire => false,
        CombatTactic::Delay => false,
        CombatTactic::ElasticDefense => support(t.enemy, e) == 0,
        CombatTactic::Counterattack => support(t.enemy, e) == 0 || e.org_ratio < HALF_ORG_RATIO,
        CombatTactic::RiverDefense => t.grid.river_at(e.position),
        CombatTactic::InfiltrationAssault => cover_at(t, e.position) < STRONG_COVER && support(
            t.enemy,
            e,
        ) < 2,
        _ => true,
    }
}

/// An enemy in a city, or out of sight, is stormed when it is beaten or
/// outnumbered on the spot.
pub open spec fn stormed(t: TurnView, e: BattalionUnit) -> bool {
    &&& t.grid.urban_at(e.position) || !in_sight(t, e)
    &&& e.org_ratio < BEATEN_ORG_RATIO || among(t, next_to(e.position)) >= REFUSE_ODDS * (support(
        t.enemy,
        e,
    ) + 1)
}

/// The odds round the hex are no worse than three to one against.
pub open spec fn odds_acceptable(t: TurnView, u: BattalionUnit, h: HexCoord) -> bool {
    count_where(t.enemy, fighting_round(h)) < REFUSE_ODDS * (1 + among(t, backing(u.id, h)))
}

/// The enemy is in rout: it never returns fire.
pub open spec fn in_rout(e: BattalionUnit) -> bool {
    e.state == UnitState::Retreating
}

/// The enemy is without organisation but not yet gone.
pub open spec fn remnant(e: BattalionUnit) -> bool {
    e.org == 0 && e.state != UnitState::Eliminated
}

/// The enemy in sight may be assaulted but for the trade: it is next to the
/// battalion, fights, is a remnant or in rout, the card or an order allows it,
/// and the odds do.
pub open spec fn assailable(t: TurnView, u: BattalionUnit, e: BattalionUnit) -> bool {
    &&& e.effective() || remnant(e) || in_rout(e)
    &&& hex_distance(u.position, e.position) == 1
    &&& permitted(t, e) || fights_through(t, u, e)
    &&& in_rout(e) || odds_acceptable(t, u, e.position) || stormed(t, e) || fights_through(t, u, e)
}

/// The trade does not matter: the enemy is in rout, the card strikes at point
/// blank, or the enemy is stormed or fought through.
pub open spec fn whatever_the_trade(t: TurnView, u: BattalionUnit, e: BattalionUnit) -> bool {
    ||| in_rout(e)
    ||| t.tactic == CombatTactic::Ambush
    ||| t.tactic == CombatTactic::UrbanDefense
    ||| t.tactic == CombatTactic::RiverDefense
    ||| stormed(t, e)
    ||| fights_through(t, u, e)
}

/// Enemy `foe` in sight is prey of battalion `who`.
pub open spec fn is_prey(t: TurnView, b: &Book, who: int, foe: int) -> Result<bool, Query> {
    let u = t.own[who];
    let e = t.enemy[foe];
    if !assailable(t, u, e) {
        Ok(false)
    } else if whatever_the_trade(t, u, e) {
        Ok(true)
    } else {
        truth(b, Query::Trade { who: who as usize, foe: foe as usize })
    }
}

/// The prey of battalion `who` among the first `n` enemies in sight.
pub open spec fn prey_upto(t: TurnView, b: &Book, who: int, n: nat) -> Result<Seq<BattalionUnit>, Query>
    decreases n,
{
    if n == 0 {
        Ok(Seq::empty())
    } else {
        match prey_upto(t, b, who, (n - 1) as nat) {
            Err(q) => Err(q),
            Ok(rest) => match is_prey(t, b, who, n - 1) {
                Err(q) => Err(q),
                Ok(true) => Ok(rest.push(t.enemy[n - 1])),
                Ok(false) => Ok(rest),
            },
        }
    }
}

/// The enemies out of sight that are stormed blind.
pub open spec fn blind_prey(t: TurnView, u: BattalionUnit) -> spec_fn(BattalionUnit) -> bool {
    |e: BattalionUnit|
        {
            &&& !in_sight(t, e)
            &&& hex_distance(u.position, e.position) == 1
            &&& e.effective() || remnant(e)
            &&& stormed(t, e)
        }
}

/// All prey of battalion `who`.
pub open spec fn all_prey(t: TurnView, b: &Book, who: int) -> Result<Seq<BattalionUnit>, Query> {
    match prey_upto(t, b, who, t.enemy.len()) {
        Err(q) => Err(q),
        Ok(seen) => Ok(seen + those_where(t.physical_foes, blind_prey(t, t.own[who]))),
    }
}

/// Raiders and an elastic defence prefer isolated prey.
pub open spec fn prefers_isolated(tactic: CombatTactic) -> bool {
    tactic == CombatTactic::GuerrillaTactics || tactic == CombatTactic::ElasticDefense
}

/// How prey is ranked: by its support where isolated prey is preferred, else
/// by how many can join the assault; then by its organisation, one in rout
/// counting as without, and its strength.
pub open spec fn target_key(t: TurnView, e: BattalionUnit) -> Key {
    let org = if in_rout(e) {
        0
    } else {
        e.org_cents as i128
    };
    if prefers_isolated(t.tactic) {
        Key { a: support(t.enemy, e) as i128, b: 0, c: org, d: e.strength_cents as i128 }
    } else {
        Key {
            a: 0,
            b: (-(among(t, joining(e.position)) as int)) as i128,
            c: org,
            d: e.strength_cents as i128,
        }
    }
}

/// The ranks of all prey.
pub open spec fn target_keys(t: TurnView, prey: Seq<BattalionUnit>) -> Seq<Option<Key>> {
    prey.map_values(|e: BattalionUnit| Some(target_key(t, e)))
}

/// The prey that ranks as one of them does.
pub open spec fn as_good_as(t: TurnView, best: Key) -> spec_fn(BattalionUnit) -> bool {
    |e: BattalionUnit| target_key(t, e) == best
}

/// The prey on a hex or next to it.
pub open spec fn by_hex(h: HexCoord) -> spec_fn(BattalionUnit) -> bool {
    |e: BattalionUnit| e.position == h || hex_distance(e.position, h) == 1
}

/// The enemy that the division is ordered to engage.
pub open spec fn quarry(t: TurnView) -> Option<BattalionUnit> {
    match t.order {
        Some(DivOrderTarget::Engage { unit, last_pos: _ }) => match unit_index(t.enemy, unit) {
            Some(i) => Some(t.enemy[i]),
            None => None,
        },
        _ => None,
    }
}

/// The quarry is struck whenever it is within reach and allowed, or in rout.
pub open spec fn strikes_quarry(t: TurnView, u: BattalionUnit, e: BattalionUnit) -> bool {
    &&& hex_distance(u.position, e.position) == 1
    &&& in_rout(e) || permitted(t, e) || fights_through(t, u, e)
    &&& in_rout(e) || odds_acceptable(t, u, e.position) || stormed(t, e) || fights_through(t, u, e)
}

/// The choice among prey: the defenders of a hex to be seized come first; else
/// a draw decides among those that rank best.
pub open spec fn chosen_prey(t: TurnView, b: &Book, who: int, prey: Seq<BattalionUnit>) -> Result<
    Option<BattalionUnit>,
    Query,
> {
    let on_point = match t.order {
        Some(DivOrderTarget::Seize { hex }) => first_where(prey, by_hex(hex)),
        _ => None,
    };
    match on_point {
        Some(i) => Ok(Some(prey[i])),
        None => match least(target_keys(t, prey)) {
            None => Ok(None),
            Some(i) => {
                let tied = those_where(prey, as_good_as(t, target_key(t, prey[i])));
                let draw = Query::Draw { who: who as usize, below: tied.len() as usize };
                match number(b, draw) {
                    Err(q) => Err(q),
                    Ok(n) => if 0 <= n < tied.len() {
                        Ok(Some(tied[n as int]))
                    } else {
                        Err(draw)
                    },
                }
            },
        },
    }
}

/// The assault of battalion `who`, if it has one.
pub open spec fn assault(t: TurnView, b: &Book, who: int) -> Result<Option<Act>, Query> {
    let u = t.own[who];
    if !u.can_assault {
        Ok(None)
    } else if quarry(t) is Some && strikes_quarry(t, u, quarry(t)->0) {
        Ok(Some(Act::Assault { attacker_id: u.id, target_id: quarry(t)->0.id }))
    } else {
        match all_prey(t, b, who) {
            Err(q) => Err(q),
            Ok(prey) => match chosen_prey(t, b, who, prey) {
                Err(q) => Err(q),
                Ok(None) => Ok(None),
                Ok(Some(e)) => Ok(Some(Act::Assault { attacker_id: u.id, target_id: e.id })),
            },
        }
    }
}

fn count_next_to(v: &Vec<BattalionUnit>, h: HexCoord) -> (n: usize)
    ensures
        n == count_where(v@, next_to(h)),
{
    let mut n: usize = 0;
    let mut i: usize = 0;
    assert(v@.take(0) =~= Seq::<BattalionUnit>::empty());
    while i < v.len()
        invariant
            i <= v@.len(),
            n <= i,
            n == count_where(v@.take(i as int), next_to(h)),
        decreases v@.len() - i,
    {
        assert(v@.take(i + 1).drop_last() =~= v@.take(i as int));
        if v[i].position.distance(h) == 1 {
            n += 1;
        }
        i += 1;
    }
    assert(v@.take(v@.len() as int) =~= v@);
    n
}

fn count_backing(v: &Vec<BattalionUnit>, id: usize, h: HexCoord) -> (n: usize)
    ensures
        n == count_where(v@, backing(id, h)),
{
    let mut n: usize = 0;
    let mut i: usize = 0;
    assert(v@.take(0) =~= Seq::<BattalionUnit>::empty());
    while i < v.len()
        invariant
            i <= v@.len(),
            n <= i,
            n == count_where(v@.take(i as int), backing(id, h)),
        decreases v@.len() - i,
    {
        assert(v@.take(i + 1).drop_last() =~= v@.take(i as int));
        if v[i].id != id && v[i].is_combat_effective() && v[i].position.distance(h) <= 1 {
            n += 1;
        }
        i += 1;
    }
    assert(v@.take(v@.len() as int) =~= v@);
    n
}

pub(crate) fn count_fighting_round(v: &Vec<BattalionUnit>, h: HexCoord) -> (n: usize)
    ensures
        n == count_where(v@, fighting_round(h)),
{
    let mut n: usize = 0;
    let mut i: usize = 0;
    assert(v@.take(0) =~= Seq::<BattalionUnit>::empty());
    while i < v.len()
        invariant
            i <= v@.len(),
            n <= i,
            n == count_where(v@.take(i as int), fighting_round(h)),
        decreases v@.len() - i,
    {
        assert(v@.take(i + 1).drop_last() =~= v@.take(i as int));
        if v[i].is_combat_effective() && v[i].position.distance(h) <= 1 {
            n += 1;
        }
        i += 1;
    }
    assert(v@.take(v@.len() as int) =~= v@);
    n
}

fn count_joining(v: &Vec<BattalionUnit>, h: HexCoord) -> (n: usize)
    ensures
        n == count_where(v@, joining(h)),
{
    let mut n: usize = 0;
    let mut i: usize = 0;
    assert(v@.take(0) =~= Seq::<BattalionUnit>::empty());
    while i < v.len()
        invariant
            i <= v@.len(),
            n <= i,
            n == count_where(v@.take(i as int), joining(h)),
        decreases v@.len() - i,
    {
        assert(v@.take(i + 1).drop_last() =~= v@.take(i as int));
        if v[i].is_combat_effective() && v[i].can_assault && v[i].position.distance(h) == 1 {
            n += 1;
        }
        i += 1;
    }
    assert(v@.take(v@.len() as int) =~= v@);
    n
}

fn is_in_sight(t: &Turn, e: &BattalionUnit) -> (b: bool)
    ensures
        b == in_sight(t@, *e),
{
    let mut i: usize = 0;
    while i < t.enemy.len()
        invariant
            i <= t.enemy@.len(),
            forall|j: int| 0 <= j < i ==> (#[trigger] t.enemy@[j]).id != e.id,
        decreases t.enemy@.len() - i,
    {
        if t.enemy[i].id == e.id {
            assert(t.enemy@[i as int].id == e.id);
            return true;
        }
        i += 1;
    }
    false
}

fn fight_through(t: &Turn, u: &BattalionUnit, e: &BattalionUnit) -> (b: bool)
    ensures
        b == fights_through(t@, *u, *e),
{
    t.order.is_some() && e.is_combat_effective() && u.position.distance(e.position) == 1
}

/// The card allows to assault the enemy at all.
pub fn assault_permitted(t: &Turn, e: &BattalionUnit) -> (b: bool)
    ensures
        b == permitted(t@, *e),
{
    match t.tactic {
        CombatTactic::TacticalWithdrawal => false,
        CombatTactic::OverwhelmingFire => false,
        CombatTactic::Delay => false,
        CombatTactic::ElasticDefense => adjacent_enemy_friends(e, &t.enemy) == 0,
        CombatTactic::Counterattack => adjacent_enemy_friends(e, &t.enemy) == 0 || e.org_ratio
            < HALF_ORG_RATIO,
        CombatTactic::RiverDefense => t.grid.is_river(e.position),
        CombatTactic::InfiltrationAssault => ground_cover(t, e.position) < STRONG_COVER
            && adjacent_enemy_friends(e, &t.enemy) < 2,
        _ => true,
    }
}

/// The enemy is stormed.
pub fn storm_target(t: &Turn, e: &BattalionUnit) -> (b: bool)
    ensures
        b == stormed(t@, *e),
{
    if !t.grid.is_urban(e.position) && is_in_sight(t, e) {
        return false;
    }
    if e.org_ratio < BEATEN_ORG_RATIO {
        return true;
    }
    let friends: i128 = count_next_to(&t.own, e.position) as i128 + count_next_to(
        &t.passive,
        e.position,
    ) as i128;
    friends >= REFUSE_ODDS * (adjacent_enemy_friends(e, &t.enemy) as i128 + 1)
}

/// The odds round the hex are no worse than three to one against.
pub fn local_odds_acceptable(t: &Turn, u: &BattalionUnit, h: HexCoord) -> (b: bool)
    ensures
        b == odds_acceptable(t@, *u, h),
{
    let friends: i128 = 1 + (count_backing(&t.own, u.id, h) as i128 + count_backing(
        &t.passive,
        u.id,
        h,
    ) as i128);
    let foes: i128 = count_fighting_round(&t.enemy, h) as i128;
    foes < REFUSE_ODDS * friends
}

fn check_prey(t: &Turn, b: &Book, who: usize, foe: usize) -> (r: Result<bool, Query>)
    requires
        who < t.own@.len(),
        foe < t.enemy@.len(),
    ensures
        r == is_prey(t@, b, who as int, foe as int),
{
    let u = t.own[who];
    let e = t.enemy[foe];
    let rout = e.state == UnitState::Retreating;
    if !(e.is_combat_effective() || (e.org == 0 && e.state != UnitState::Eliminated) || rout) {
        return Ok(false);
    }
    if u.position.distance(e.position) != 1 {
        return Ok(false);
    }
    let through = fight_through(t, &u, &e);
    if !through && !assault_permitted(t, &e) {
        return Ok(false);
    }
    let storm = storm_target(t, &e);
    if !rout && !storm && !through && !local_odds_acceptable(t, &u, e.position) {
        return Ok(false);
    }
    let point_blank = match t.tactic {
        CombatTactic::Ambush => true,
        CombatTactic::UrbanDefense => true,
        CombatTactic::RiverDefense => true,
        _ => false,
    };
    if rout || point_blank || storm || through {
        Ok(true)
    } else {
        b.truth(Query::Trade { who, foe })
    }
}

/// The prey that was found, as a value.
spec fn found_prey(r: Result<Vec<BattalionUnit>, Query>) -> Result<Seq<BattalionUnit>, Query> {
    match r {
        Ok(v) => Ok(v@),
        Err(q) => Err(q),
    }
}

proof fn lemma_prey_asks(t: TurnView, b: &Book, who: int, i: nat, n: nat, q: Query)
    requires
        i <= n,
        prey_upto(t, b, who, i) == Err::<Seq<BattalionUnit>, Query>(q),
    ensures
        prey_upto(t, b, who, n) == Err::<Seq<BattalionUnit>, Query>(q),
    decreases n - i,
{
    if i < n {
        lemma_prey_asks(t, b, who, i + 1, n, q);
    }
}

fn find_prey(t: &Turn, b: &Book, who: usize) -> (r: Result<Vec<BattalionUnit>, Query>)
    requires
        who < t.own@.len(),
    ensures
        found_prey(r) == all_prey(t@, b, who as int),
{
    let mut prey: Vec<BattalionUnit> = Vec::new();
    let mut i: usize = 0;
    while i < t.enemy.len()
        invariant
            i <= t.enemy@.len(),
            who < t.own@.len(),
            prey_upto(t@, b, who as int, i as nat) == Ok::<Seq<BattalionUnit>, Query>(prey@),
        decreases t.enemy@.len() - i,
    {
        match check_prey(t, b, who, i) {
            Err(q) => {
                proof {
                    lemma_prey_asks(t@, b, who as int, (i + 1) as nat, t.enemy@.len(), q);
                }
                return Err(q);
            },
            Ok(yes) => {
                if yes {
                    prey.push(t.enemy[i]);
                }
            },
        }
        i += 1;
    }
    let u = t.own[who];
    let ghost seen = prey@;
    let ghost ok = blind_prey(t@, u);
    let ghost foes = t.physical_foes@;
    let mut j: usize = 0;
    assert(foes.take(0) =~= Seq::<BattalionUnit>::empty());
    while j < t.physical_foes.len()
        invariant
            j <= foes.len(),
            foes == t.physical_foes@,
            ok == blind_prey(t@, u),
            prey@ =~= seen + those_where(foes.take(j as int), ok),
        decreases foes.len() - j,
    {
        assert(foes.take(j + 1).drop_last() =~= foes.take(j as int));
        let e = t.physical_foes[j];
        if !is_in_sight(t, &e) && u.position.distance(e.position) == 1 && (e.is_combat_effective() || (
        e.org == 0 && e.state != UnitState::Eliminated)) && storm_target(t, &e) {
            prey.push(e);
        }
        j += 1;
    }
    assert(foes.take(foes.len() as int) =~= foes);
    Ok(prey)
}

fn key_of(t: &Turn, e: &BattalionUnit) -> (k: Key)
    ensures
        k == target_key(t@, *e),
{
    let org: i128 = if e.state == UnitState::Retreating {
        0
    } else {
        e.org_cents as i128
    };
    let isolated = match t.tactic {
        CombatTactic::GuerrillaTactics => true,
        CombatTactic::ElasticDefense => true,
        _ => false,
    };
    if isolated {
        Key {
            a: adjacent_enemy_friends(e, &t.enemy) as i128,
            b: 0,
            c: org,
            d: e.strength_cents as i128,
        }
    } else {
        let pool: i128 = count_joining(&t.own, e.position) as i128 + count_joining(
            &t.passive,
            e.position,
        ) as i128;
        Key { a: 0, b: -pool, c: org, d: e.strength_cents as i128 }
    }
}

fn first_by_hex(prey: &Vec<BattalionUnit>, h: HexCoord) -> (found: Option<usize>)
    ensures
        match found {
            Some(i) => first_where(prey@, by_hex(h)) == Some(i as int) && i < prey@.len(),
            None => first_where(prey@, by_hex(h)) is None,
        },
{
    let ghost ok = by_hex(h);
    let mut i: usize = 0;
    while i < prey.len()
        invariant
            i <= prey@.len(),
            ok == by_hex(h),
            forall|j: int| 0 <= j < i ==> !ok(#[trigger] prey@[j]),
        decreases prey@.len() - i,
    {
        if prey[i].position == h || prey[i].position.distance(h) == 1 {
            proof {
                law_first_where(prey@, ok);
                assert(ok(prey@[i as int]));
            }
            return Some(i);
        }
        i += 1;
    }
    proof {
        law_first_where(prey@, ok);
    }
    None
}

fn all_as_good_as(t: &Turn, prey: &Vec<BattalionUnit>, best: Key) -> (tied: Vec<BattalionUnit>)
    ensures
        tied@ == those_where(prey@, as_good_as(t@, best)),
{
    let ghost ok = as_good_as(t@, best);
    let mut tied: Vec<BattalionUnit> = Vec::new();
    let mut i: usize = 0;
    assert(prey@.take(0) =~= Seq::<BattalionUnit>::empty());
    while i < prey.len()
        invariant
            i <= prey@.len(),
            ok == as_good_as(t@, best),
            tied@ == those_where(prey@.take(i as int), ok),
        decreases prey@.len() - i,
    {
        assert(prey@.take(i + 1).drop_last() =~= prey@.take(i as int));
        if key_of(t, &prey[i]) == best {
            tied.push(prey[i]);
        }
        i += 1;
    }
    assert(prey@.take(prey@.len() as int) =~= prey@);
    tied
}

fn choose_prey(t: &Turn, b: &Book, who: usize, prey: &Vec<BattalionUnit>) -> (r: Result<
    Option<BattalionUnit>,
    Query,
>)
    ensures
        r == chosen_prey(t@, b, who as int, prey@),
{
    if let Some(DivOrderTarget::Seize { hex }) = t.order {
        if let Some(i) = first_by_hex(prey, hex) {
            return Ok(Some(prey[i]));
        }
    }
    let mut keys: Vec<Option<Key>> = Vec::new();
    let mut i: usize = 0;
    while i < prey.len()
        invariant
            i <= prey@.len(),
            keys@ =~= target_keys(t@, prey@).take(i as int),
        decreases prey@.len() - i,
    {
        keys.push(Some(key_of(t, &prey[i])));
        i += 1;
    }
    assert(keys@ =~= target_keys(t@, prey@));
    match find_least(&keys) {
        None => Ok(None),
        Some(k) => {
            let best: Key = key_of(t, &prey[k]);
            let tied: Vec<BattalionUnit> = all_as_good_as(t, prey, best);
            let draw = Query::Draw { who, below: tied.len() };
            match b.number(draw) {
                Err(q) => Err(q),
                Ok(n) => if n >= 0 && (n as u64) < tied.len() as u64 {
                    Ok(Some(tied[n as usize]))
                } else {
                    Err(draw)
                },
            }
        },
    }
}

/// The assault of battalion `who`, if it has one.
pub fn try_assault(t: &Turn, b: &Book, who: usize) -> (r: Result<Option<AiAction>, Query>)
    requires
        who < t.own@.len(),
    ensures
        proposed(r) == assault(t@, b, who as int),
{
    let u = t.own[who];
    if !u.can_assault {
        return Ok(None);
    }
    if let Some(DivOrderTarget::Engage { unit, last_pos: _ }) = t.order {
        if let Some(i) = find_unit(t.enemy.as_slice(), unit) {
            let e = t.enemy[i];
            let rout = e.state == UnitState::Retreating;
            let through = fight_through(t, &u, &e);
            if u.position.distance(e.position) == 1 && (rout || through || assault_permitted(t, &e)) && (
            rout || through || local_odds_acceptable(t, &u, e.position) || storm_target(t, &e)) {
                return Ok(Some(AiAction::Assault { attacker_id: u.id, target_id: e.id }));
            }
        }
    }
    match find_prey(t, b, who) {
        Err(q) => Err(q),
        Ok(prey) => match choose_prey(t, b, who, &prey) {
            Err(q) => Err(q),
            Ok(None) => Ok(None),
            Ok(Some(e)) => Ok(Some(AiAction::Assault { attacker_id: u.id, target_id: e.id })),
        },
    }
}

// ---- volleys ----

/// The battalions that join battalion `u` in an assault on a hex: others that
/// fight, have not acted, can assault and stand next to it.
pub open spec fn joining_with(u: BattalionUnit, h: HexCoord) -> spec_fn(BattalionUnit) -> bool {
    |o: BattalionUnit| o.id != u.id && !o.acted && joining(h)(o)
}

/// The ids of battalions.
pub open spec fn ids_of(units: Seq<BattalionUnit>) -> Seq<usize> {
    units.map_values(|u: BattalionUnit| u.id)
}

fn push_joining(v: &mut Vec<usize>, units: &Vec<BattalionUnit>, h: HexCoord)
    ensures
        final(v)@ == old(v)@ + ids_of(those_where(units@, joining(h))),
{
    let ghost ok = joining(h);
    let mut i: usize = 0;
    assert(units@.take(0) =~= Seq::<BattalionUnit>::empty());
    assert(v@ =~= old(v)@ + ids_of(those_where(units@.take(0), ok)));
    while i < units.len()
        invariant
            i <= units@.len(),
            ok == joining(h),
            v@ == old(v)@ + ids_of(those_where(units@.take(i as int), ok)),
        decreases units@.len() - i,
    {
        assert(units@.take(i + 1).drop_last() =~= units@.take(i as int));
        let o = units[i];
        if o.is_combat_effective() && o.can_assault && o.position.distance(h) == 1 {
            v.push(o.id);
        }
        assert(v@ =~= old(v)@ + ids_of(those_where(units@.take(i + 1), ok)));
        i += 1;
    }
    assert(units@.take(units@.len() as int) =~= units@);
}

fn push_joining_with(v: &mut Vec<usize>, units: &Vec<BattalionUnit>, u: &BattalionUnit, h: HexCoord)
    ensures
        final(v)@ == old(v)@ + ids_of(those_where(units@, joining_with(*u, h))),
{
    let ghost ok = joining_with(*u, h);
    let mut i: usize = 0;
    assert(units@.take(0) =~= Seq::<BattalionUnit>::empty());
    assert(v@ =~= old(v)@ + ids_of(those_where(units@.take(0), ok)));
    while i < units.len()
        invariant
            i <= units@.len(),
            ok == joining_with(*u, h),
            v@ == old(v)@ + ids_of(those_where(units@.take(i as int), ok)),
        decreases units@.len() - i,
    {
        assert(units@.take(i + 1).drop_last() =~= units@.take(i as int));
        let o = units[i];
        if o.id != u.id && !o.acted && o.is_combat_effective() && o.can_assault && o.position.distance(h)
            == 1 {
            v.push(o.id);
        }
        assert(v@ =~= old(v)@ + ids_of(those_where(units@.take(i + 1), ok)));
        i += 1;
    }
    assert(units@.take(units@.len() as int) =~= units@);
}

/// The volley that battalion `who` would join in an assault on enemy `foe`, by
/// ids: the battalion itself, and all of the side that can still join it.
pub fn assault_pool(t: &Turn, who: usize, foe: usize) -> (v: Vec<usize>)
    requires
        who < t.own@.len(),
        foe < t.enemy@.len(),
    ensures
        ({
            let u = t.own@[who as int];
            let ok = joining_with(u, t.enemy@[foe as int].position);
            v@ == seq![u.id] + ids_of(those_where(t.own@, ok)) + ids_of(those_where(t.passive@, ok))
        }),
{
    let u = t.own[who];
    let h = t.enemy[foe].position;
    let mut v: Vec<usize> = Vec::new();
    v.push(u.id);
    assert(v@ =~= seq![u.id]);
    push_joining_with(&mut v, &t.own, &u, h);
    push_joining_with(&mut v, &t.passive, &u, h);
    v
}

/// The volley that could form on enemy `foe`, by ids, whatever its battalions
/// have been ordered to do.
pub fn imagined_pool(t: &Turn, foe: usize) -> (v: Vec<usize>)
    requires
        foe < t.enemy@.len(),
    ensures
        ({
            let ok = joining(t.enemy@[foe as int].position);
            v@ == ids_of(those_where(t.own@, ok)) + ids_of(those_where(t.passive@, ok))
        }),
{
    let h = t.enemy[foe].position;
    let mut v: Vec<usize> = Vec::new();
    assert(v@ =~= Seq::<usize>::empty());
    push_joining(&mut v, &t.own, h);
    push_joining(&mut v, &t.passive, h);
    assert(v@ =~= ids_of(those_where(t.own@, joining(h))) + ids_of(those_where(t.passive@, joining(h))));
    v
}

} // verus!
