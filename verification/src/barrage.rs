//! Which hex a battery fires at.
use vstd::prelude::*;
use crate::assault::{among, by_hex, count_fighting_round, fighting_round};
use crate::hex::{hex_distance, HexCoord};
use crate::pick::{
    find_least, first_where, indices, law_first_where, least, rank, ranked, those_where, Key,
};
use crate::role::{objective_of, select_objective, StrategicObjective};
use crate::tactic::CombatTactic;
use crate::turn::{
    gathered, held, is_held, lemma_gathered_asks, lemma_gathered_len, number, truth, Book, DivOrderTarget, Query,
    Turn, TurnView,
};
use crate::unit::{BattalionUnit, UnitState};

verus! {

/// The enemies, by index, that battalion `who` can fire at: they fight or are
/// in rout and stand in its firing envelope; guns that lay directly fire only
/// at those that fight.
pub open spec fn in_reach(t: TurnView, who: int) -> spec_fn(usize) -> bool {
    |j: usize|
        {
            let u = t.own[who];
            let e = t.enemy[j as int];
            &&& e.effective() || (e.state == UnitState::Retreating && !u.kind.direct_gun)
            &&& u.min_attack_range <= hex_distance(u.position, e.position) <= u.attack_range
        }
}

/// All enemies that battalion `who` can fire at.
pub open spec fn reach_of(t: TurnView, who: int) -> Seq<usize> {
    those_where(indices(t.enemy.len()), in_reach(t, who))
}

/// Friends that fight stand on the hex or next to it.
pub open spec fn friends_in_blast(t: TurnView, h: HexCoord) -> bool {
    among(t, fighting_round(h)) > 0
}

/// Battalion `who` may fire at the enemy: a salvo must not strike friends.
pub open spec fn safe_for(t: TurnView, who: int, h: HexCoord) -> bool {
    t.own[who].kind.rocket ==> !friends_in_blast(t, h)
}

/// The targets that it is safe to fire at.
pub open spec fn safe_target(t: TurnView, who: int) -> spec_fn(usize) -> bool {
    |j: usize| safe_for(t, who, t.enemy[j as int].position)
}

/// A number that orders battalions by their organisation, then by their
/// strength.
pub open spec fn weakness(e: BattalionUnit) -> int {
    e.org * 0x1_0000_0000 + e.strength
}

/// Targets ranked by weakness, then by id.
pub open spec fn weakness_keys(t: TurnView, foes: Seq<usize>) -> Seq<Option<Key>> {
    foes.map_values(
        |j: usize|
            Some(
                Key {
                    a: weakness(t.enemy[j as int]) as i128,
                    b: t.enemy[j as int].id as i128,
                    c: 0,
                    d: 0,
                },
            ),
    )
}

/// Where the weakest of the targets stands.
pub open spec fn weakest(t: TurnView, foes: Seq<usize>) -> Option<HexCoord> {
    match least(weakness_keys(t, foes)) {
        Some(i) => Some(t.enemy[foes[i] as int].position),
        None => None,
    }
}

/// The targets with an id.
pub open spec fn with_id(t: TurnView, id: usize) -> spec_fn(usize) -> bool {
    |j: usize| t.enemy[j as int].id == id
}

/// The targets on a hex or next to it.
pub open spec fn by_point(t: TurnView, h: HexCoord) -> spec_fn(usize) -> bool {
    |j: usize| by_hex(h)(t.enemy[j as int])
}

/// The hex that the division's order has battalion `who` fire at: that of its
/// quarry, or of the weakest defender of the hex to be seized.
pub open spec fn ordered_target(t: TurnView, who: int, foes: Seq<usize>) -> Option<HexCoord> {
    let target = match t.order {
        Some(DivOrderTarget::Engage { unit, last_pos: _ }) => match first_where(foes, with_id(t, unit)) {
            Some(i) => Some(t.enemy[foes[i] as int].position),
            None => None,
        },
        Some(DivOrderTarget::Seize { hex }) => weakest(t, those_where(foes, by_point(t, hex))),
        None => None,
    };
    match target {
        Some(h) if safe_for(t, who, h) => Some(h),
        _ => None,
    }
}

/// The hex holds an enemy that fights: fire at it is precise.
pub open spec fn precise_hex(t: TurnView, h: HexCoord) -> bool {
    held(t.enemy, h)
}

/// The targets that can be fired at precisely.
pub open spec fn precise_target(t: TurnView) -> spec_fn(usize) -> bool {
    |j: usize| precise_hex(t, t.enemy[j as int].position)
}

/// The targets of a preparation: those that can be fired at precisely, or all
/// where none can.
pub open spec fn preparation(t: TurnView, foes: Seq<usize>) -> Seq<usize> {
    if those_where(foes, precise_target(t)).len() > 0 {
        those_where(foes, precise_target(t))
    } else {
        foes
    }
}

/// The rank of a target by the volley of all that could assault it, then by
/// weakness, then by id.
pub open spec fn volley_key(t: TurnView, b: &Book) -> spec_fn(usize) -> Result<Option<Key>, Query> {
    |j: usize|
        match number(b, Query::Volley { foe: j }) {
            Err(q) => Err(q),
            Ok(n) => Ok(
                Some(
                    Key {
                        a: (-n) as i128,
                        b: weakness(t.enemy[j as int]) as i128,
                        c: t.enemy[j as int].id as i128,
                        d: 0,
                    },
                ),
            ),
        }
}

/// The cards whose batteries prepare the assault.
pub open spec fn prepares_assault(tactic: CombatTactic) -> bool {
    tactic == CombatTactic::Assault || tactic == CombatTactic::RiverAssault
}

/// The hex of the preparation: under the assault cards that of the target with
/// the greatest volley, if any volley can form; else that of the weakest.
pub open spec fn prepared_target(t: TurnView, b: &Book, foes: Seq<usize>) -> Result<Option<HexCoord>, Query> {
    let targets = preparation(t, foes);
    if !prepares_assault(t.tactic) {
        Ok(weakest(t, targets))
    } else {
        match gathered(targets, volley_key(t, b)) {
            Err(q) => Err(q),
            Ok(keys) => match least(keys) {
                Some(i) if keys[i]->0.a < 0 => Ok(Some(t.enemy[targets[i] as int].position)),
                _ => Ok(weakest(t, targets)),
            },
        }
    }
}

/// Battalion `who` fires at the target with its full strength.
pub open spec fn at_full(t: TurnView, who: int, j: int) -> bool {
    precise_hex(t, t.enemy[j].position) || t.own[who].kind.direct_gun || t.own[who].kind.rocket
}

/// The rank of a mission: at full strength first, then by expected damage, then
/// by the weakness of the target, then by id.
pub open spec fn barrage_key(t: TurnView, b: &Book, who: int) -> spec_fn(usize) -> Result<
    Option<Key>,
    Query,
> {
    |j: usize|
        {
            let full = at_full(t, who, j as int);
            match number(b, Query::Barrage { who: who as usize, foe: j, full }) {
                Err(q) => Err(q),
                Ok(n) => Ok(
                    Some(
                        Key {
                            a: if full {
                                0
                            } else {
                                1
                            },
                            b: (-n) as i128,
                            c: weakness(t.enemy[j as int]) as i128,
                            d: t.enemy[j as int].id as i128,
                        },
                    ),
                ),
            }
        }
}

/// The keys of candidates that all have one.
pub open spec fn plain(keys: Seq<Option<Key>>) -> Seq<Key> {
    keys.map_values(|k: Option<Key>| k->0)
}

/// Of the first `n` missions in their ranking those that are as good as the
/// best.
pub open spec fn even_upto(
    b: &Book,
    who: int,
    foes: Seq<usize>,
    keys: Seq<Key>,
    order: Seq<usize>,
    n: nat,
) -> Result<Seq<usize>, Query>
    decreases n,
{
    if n == 0 {
        Ok(Seq::empty())
    } else {
        match even_upto(b, who, foes, keys, order, (n - 1) as nat) {
            Err(q) => Err(q),
            Ok(rest) => {
                let best = order[0] as int;
                let p = order[n - 1] as int;
                if keys[p].a != keys[best].a {
                    Ok(rest)
                } else if keys[p].b == keys[best].b {
                    Ok(rest.push(foes[p]))
                } else {
                    match truth(
                        b,
                        Query::Even {
                            who: who as usize,
                            foe: foes[p],
                            best: foes[best],
                            full: keys[p].a == 0,
                        },
                    ) {
                        Err(q) => Err(q),
                        Ok(true) => Ok(rest.push(foes[p])),
                        Ok(false) => Ok(rest),
                    }
                }
            },
        }
    }
}

/// The hex of a draw among the best missions.
pub open spec fn best_mission(t: TurnView, b: &Book, who: int, foes: Seq<usize>) -> Result<
    Option<HexCoord>,
    Query,
> {
    match gathered(foes, barrage_key(t, b, who)) {
        Err(q) => Err(q),
        Ok(keys) => match even_upto(b, who, foes, plain(keys), ranked(plain(keys)), foes.len()) {
            Err(q) => Err(q),
            Ok(tied) => {
                let draw = Query::Draw { who: who as usize, below: tied.len() as usize };
                match number(b, draw) {
                    Err(q) => Err(q),
                    Ok(n) => if 0 <= n < tied.len() {
                        Ok(Some(t.enemy[tied[n as int] as int].position))
                    } else {
                        Err(draw)
                    },
                }
            },
        },
    }
}

/// The hex that battalion `who` fires at, if it has a target: under a
/// division's order the ordered one; else, under a fire plan or an assault
/// card, that of the preparation; else that of the best mission.
pub open spec fn fire_target(t: TurnView, b: &Book, who: int) -> Result<Option<HexCoord>, Query> {
    let reach = reach_of(t, who);
    let safe = those_where(reach, safe_target(t, who));
    match ordered_target(t, who, reach) {
        Some(h) => Ok(Some(h)),
        None => if safe.len() == 0 {
            Ok(None)
        } else if objective_of(t.tactic, t.outmatched) == StrategicObjective::Attrition
            || prepares_assault(t.tactic) {
            prepared_target(t, b, safe)
        } else {
            best_mission(t, b, who, safe)
        },
    }
}

/// All of them are indices of enemies.
pub open spec fn are_foes(t: TurnView, foes: Seq<usize>) -> bool {
    forall|k: int| 0 <= k < foes.len() ==> (#[trigger] foes[k]) < t.enemy.len()
}

fn find_reach(t: &Turn, who: usize) -> (v: Vec<usize>)
    requires
        who < t.own@.len(),
    ensures
        v@ == reach_of(t@, who as int),
        are_foes(t@, v@),
{
    let u = t.own[who];
    let ghost all = indices(t.enemy@.len());
    let ghost ok = in_reach(t@, who as int);
    let mut v: Vec<usize> = Vec::new();
    let mut j: usize = 0;
    assert(all.take(0) =~= Seq::<usize>::empty());
    while j < t.enemy.len()
        invariant
            j <= t.enemy@.len(),
            who < t.own@.len(),
            u == t.own@[who as int],
            all == indices(t.enemy@.len()),
            ok == in_reach(t@, who as int),
            v@ == those_where(all.take(j as int), ok),
            are_foes(t@, v@),
        decreases t.enemy@.len() - j,
    {
        proof {
            assert(all.take(j + 1).drop_last() =~= all.take(j as int));
            assert(all.take(j + 1).last() == j);
        }
        let e = t.enemy[j];
        let d: i64 = u.position.distance(e.position);
        if (e.is_combat_effective() || (e.state == UnitState::Retreating && !u.kind.direct_gun))
            && u.min_attack_range <= d && d <= u.attack_range {
            v.push(j);
        }
        j += 1;
    }
    assert(all.take(t.enemy@.len() as int) =~= all);
    v
}

fn is_safe_for(t: &Turn, who: usize, h: HexCoord) -> (b: bool)
    requires
        who < t.own@.len(),
    ensures
        b == safe_for(t@, who as int, h),
{
    !t.own[who].kind.rocket || (count_fighting_round(&t.own, h) == 0 && count_fighting_round(
        &t.passive,
        h,
    ) == 0)
}

fn safe_foes(t: &Turn, who: usize, foes: &Vec<usize>) -> (v: Vec<usize>)
    requires
        who < t.own@.len(),
        are_foes(t@, foes@),
    ensures
        v@ == those_where(foes@, safe_target(t@, who as int)),
        are_foes(t@, v@),
{
    let ghost ok = safe_target(t@, who as int);
    let mut v: Vec<usize> = Vec::new();
    let mut i: usize = 0;
    assert(foes@.take(0) =~= Seq::<usize>::empty());
    while i < foes.len()
        invariant
            i <= foes@.len(),
            who < t.own@.len(),
            are_foes(t@, foes@),
            ok == safe_target(t@, who as int),
            v@ == those_where(foes@.take(i as int), ok),
            are_foes(t@, v@),
        decreases foes@.len() - i,
    {
        assert(foes@.take(i + 1).drop_last() =~= foes@.take(i as int));
        let j: usize = foes[i];
        if is_safe_for(t, who, t.enemy[j].position) {
            v.push(j);
        }
        i += 1;
    }
    assert(foes@.take(foes@.len() as int) =~= foes@);
    v
}

fn foes_by_point(t: &Turn, foes: &Vec<usize>, h: HexCoord) -> (v: Vec<usize>)
    requires
        are_foes(t@, foes@),
    ensures
        v@ == those_where(foes@, by_point(t@, h)),
        are_foes(t@, v@),
{
    let ghost ok = by_point(t@, h);
    let mut v: Vec<usize> = Vec::new();
    let mut i: usize = 0;
    assert(foes@.take(0) =~= Seq::<usize>::empty());
    while i < foes.len()
        invariant
            i <= foes@.len(),
            are_foes(t@, foes@),
            ok == by_point(t@, h),
            v@ == those_where(foes@.take(i as int), ok),
            are_foes(t@, v@),
        decreases foes@.len() - i,
    {
        assert(foes@.take(i + 1).drop_last() =~= foes@.take(i as int));
        let j: usize = foes[i];
        let p = t.enemy[j].position;
        if p == h || p.distance(h) == 1 {
            v.push(j);
        }
        i += 1;
    }
    assert(foes@.take(foes@.len() as int) =~= foes@);
    v
}

fn precise_foes(t: &Turn, foes: &Vec<usize>) -> (v: Vec<usize>)
    requires
        are_foes(t@, foes@),
    ensures
        v@ == those_where(foes@, precise_target(t@)),
        are_foes(t@, v@),
{
    let ghost ok = precise_target(t@);
    let mut v: Vec<usize> = Vec::new();
    let mut i: usize = 0;
    assert(foes@.take(0) =~= Seq::<usize>::empty());
    while i < foes.len()
        invariant
            i <= foes@.len(),
            are_foes(t@, foes@),
            ok == precise_target(t@),
            v@ == those_where(foes@.take(i as int), ok),
            are_foes(t@, v@),
        decreases foes@.len() - i,
    {
        assert(foes@.take(i + 1).drop_last() =~= foes@.take(i as int));
        let j: usize = foes[i];
        if is_held(&t.enemy, t.enemy[j].position) {
            v.push(j);
        }
        i += 1;
    }
    assert(foes@.take(foes@.len() as int) =~= foes@);
    v
}

fn weakness_of(e: &BattalionUnit) -> (w: i128)
    ensures
        w == weakness(*e),
{
    e.org as i128 * 0x1_0000_0000 + e.strength as i128
}

fn find_weakest(t: &Turn, foes: &Vec<usize>) -> (h: Option<HexCoord>)
    requires
        are_foes(t@, foes@),
    ensures
        h == weakest(t@, foes@),
{
    let mut keys: Vec<Option<Key>> = Vec::new();
    let mut i: usize = 0;
    while i < foes.len()
        invariant
            i <= foes@.len(),
            are_foes(t@, foes@),
            keys@ =~= weakness_keys(t@, foes@).take(i as int),
        decreases foes@.len() - i,
    {
        let e = t.enemy[foes[i]];
        keys.push(Some(Key { a: weakness_of(&e), b: e.id as i128, c: 0, d: 0 }));
        i += 1;
    }
    assert(keys@ =~= weakness_keys(t@, foes@));
    match find_least(&keys) {
        Some(k) => Some(t.enemy[foes[k]].position),
        None => None,
    }
}

fn first_with_id(t: &Turn, foes: &Vec<usize>, id: usize) -> (found: Option<usize>)
    requires
        are_foes(t@, foes@),
    ensures
        match found {
            Some(i) => first_where(foes@, with_id(t@, id)) == Some(i as int) && i < foes@.len(),
            None => first_where(foes@, with_id(t@, id)) is None,
        },
{
    let ghost ok = with_id(t@, id);
    let mut i: usize = 0;
    while i < foes.len()
        invariant
            i <= foes@.len(),
            are_foes(t@, foes@),
            ok == with_id(t@, id),
            forall|j: int| 0 <= j < i ==> !ok(#[trigger] foes@[j]),
        decreases foes@.len() - i,
    {
        if t.enemy[foes[i]].id == id {
            proof {
                law_first_where(foes@, ok);
                assert(ok(foes@[i as int]));
            }
            return Some(i);
        }
        i += 1;
    }
    proof {
        law_first_where(foes@, ok);
    }
    None
}

fn find_ordered_target(t: &Turn, who: usize, foes: &Vec<usize>) -> (h: Option<HexCoord>)
    requires
        who < t.own@.len(),
        are_foes(t@, foes@),
    ensures
        h == ordered_target(t@, who as int, foes@),
{
    let target: Option<HexCoord> = match t.order {
        Some(DivOrderTarget::Engage { unit, last_pos: _ }) => match first_with_id(t, foes, unit) {
            Some(i) => Some(t.enemy[foes[i]].position),
            None => None,
        },
        Some(DivOrderTarget::Seize { hex }) => {
            let near: Vec<usize> = foes_by_point(t, foes, hex);
            find_weakest(t, &near)
        },
        None => None,
    };
    match target {
        Some(h) => if is_safe_for(t, who, h) {
            Some(h)
        } else {
            None
        },
        None => None,
    }
}

/// The keys that were gathered, as a value.
spec fn found_keys(r: Result<Vec<Option<Key>>, Query>) -> Result<Seq<Option<Key>>, Query> {
    match r {
        Ok(v) => Ok(v@),
        Err(q) => Err(q),
    }
}

fn volley_keys(t: &Turn, b: &Book, foes: &Vec<usize>) -> (r: Result<Vec<Option<Key>>, Query>)
    requires
        are_foes(t@, foes@),
    ensures
        found_keys(r) == gathered(foes@, volley_key(t@, b)),
{
    let ghost f = volley_key(t@, b);
    let mut keys: Vec<Option<Key>> = Vec::new();
    let mut i: usize = 0;
    assert(foes@.take(0) =~= Seq::<usize>::empty());
    while i < foes.len()
        invariant
            i <= foes@.len(),
            are_foes(t@, foes@),
            f == volley_key(t@, b),
            gathered(foes@.take(i as int), f) == Ok::<Seq<Option<Key>>, Query>(keys@),
        decreases foes@.len() - i,
    {
        assert(foes@.take(i + 1).drop_last() =~= foes@.take(i as int));
        let j: usize = foes[i];
        match b.number(Query::Volley { foe: j }) {
            Err(q) => {
                proof {
                    lemma_gathered_asks(foes@, f, i + 1, q);
                }
                return Err(q);
            },
            Ok(n) => {
                let e = t.enemy[j];
                keys.push(
                    Some(Key { a: -(n as i128), b: weakness_of(&e), c: e.id as i128, d: 0 }),
                );
            },
        }
        i += 1;
    }
    assert(foes@.take(foes@.len() as int) =~= foes@);
    Ok(keys)
}

fn find_prepared_target(t: &Turn, b: &Book, foes: &Vec<usize>) -> (r: Result<Option<HexCoord>, Query>)
    requires
        are_foes(t@, foes@),
    ensures
        r == prepared_target(t@, b, foes@),
{
    let precise: Vec<usize> = precise_foes(t, foes);
    let targets: &Vec<usize> = if precise.len() > 0 {
        &precise
    } else {
        foes
    };
    let assault_card = match t.tactic {
        CombatTactic::Assault => true,
        CombatTactic::RiverAssault => true,
        _ => false,
    };
    if assault_card {
        match volley_keys(t, b, targets) {
            Err(q) => {
                return Err(q);
            },
            Ok(keys) => {
                proof {
                    lemma_gathered_len(targets@, volley_key(t@, b));
                }
                if let Some(k) = find_least(&keys) {
                    if let Some(key) = keys[k] {
                        if key.a < 0 {
                            return Ok(Some(t.enemy[targets[k]].position));
                        }
                    }
                }
            },
        }
    }
    Ok(find_weakest(t, targets))
}

fn barrage_keys(t: &Turn, b: &Book, who: usize, foes: &Vec<usize>) -> (r: Result<Vec<Option<Key>>, Query>)
    requires
        who < t.own@.len(),
        are_foes(t@, foes@),
    ensures
        found_keys(r) == gathered(foes@, barrage_key(t@, b, who as int)),
{
    let ghost f = barrage_key(t@, b, who as int);
    let u = t.own[who];
    let mut keys: Vec<Option<Key>> = Vec::new();
    let mut i: usize = 0;
    assert(foes@.take(0) =~= Seq::<usize>::empty());
    while i < foes.len()
        invariant
            i <= foes@.len(),
            who < t.own@.len(),
            u == t.own@[who as int],
            are_foes(t@, foes@),
            f == barrage_key(t@, b, who as int),
            gathered(foes@.take(i as int), f) == Ok::<Seq<Option<Key>>, Query>(keys@),
        decreases foes@.len() - i,
    {
        assert(foes@.take(i + 1).drop_last() =~= foes@.take(i as int));
        let j: usize = foes[i];
        let e = t.enemy[j];
        let full = is_held(&t.enemy, e.position) || u.kind.direct_gun || u.kind.rocket;
        match b.number(Query::Barrage { who, foe: j, full }) {
            Err(q) => {
                proof {
                    lemma_gathered_asks(foes@, f, i + 1, q);
                }
                return Err(q);
            },
            Ok(n) => {
                keys.push(
                    Some(
                        Key {
                            a: if full {
                                0
                            } else {
                                1
                            },
                            b: -(n as i128),
                            c: weakness_of(&e),
                            d: e.id as i128,
                        },
                    ),
                );
            },
        }
        i += 1;
    }
    assert(foes@.take(foes@.len() as int) =~= foes@);
    Ok(keys)
}

fn plain_keys(keys: &Vec<Option<Key>>) -> (p: Vec<Key>)
    requires
        forall|i: int| 0 <= i < keys@.len() ==> (#[trigger] keys@[i]) is Some,
    ensures
        p@ == plain(keys@),
{
    let mut p: Vec<Key> = Vec::new();
    let mut i: usize = 0;
    while i < keys.len()
        invariant
            i <= keys@.len(),
            forall|i: int| 0 <= i < keys@.len() ==> (#[trigger] keys@[i]) is Some,
            p@ =~= plain(keys@).take(i as int),
        decreases keys@.len() - i,
    {
        match keys[i] {
            Some(k) => {
                p.push(k);
            },
            None => {
                assert(keys@[i as int] is Some);
            },
        }
        i += 1;
    }
    assert(p@ =~= plain(keys@));
    p
}

proof fn lemma_even_asks(
    b: &Book,
    who: int,
    foes: Seq<usize>,
    keys: Seq<Key>,
    order: Seq<usize>,
    i: nat,
    n: nat,
    q: Query,
)
    requires
        i <= n,
        even_upto(b, who, foes, keys, order, i) == Err::<Seq<usize>, Query>(q),
    ensures
        even_upto(b, who, foes, keys, order, n) == Err::<Seq<usize>, Query>(q),
    decreases n - i,
{
    if i < n {
        lemma_even_asks(b, who, foes, keys, order, i + 1, n, q);
    }
}

/// The list that was found, as a value.
spec fn found_list(r: Result<Vec<usize>, Query>) -> Result<Seq<usize>, Query> {
    match r {
        Ok(v) => Ok(v@),
        Err(q) => Err(q),
    }
}

fn find_even(
    t: &Turn,
    b: &Book,
    who: usize,
    foes: &Vec<usize>,
    keys: &Vec<Key>,
    order: &Vec<usize>,
) -> (r: Result<Vec<usize>, Query>)
    requires
        are_foes(t@, foes@),
        keys@.len() == foes@.len(),
        order@.len() == foes@.len(),
        forall|k: int| 0 <= k < order@.len() ==> (#[trigger] order@[k]) < foes@.len(),
    ensures
        found_list(r) == even_upto(b, who as int, foes@, keys@, order@, foes@.len()),
        r matches Ok(v) ==> are_foes(t@, v@),
{
    let mut tied: Vec<usize> = Vec::new();
    let mut i: usize = 0;
    while i < order.len()
        invariant
            i <= order@.len(),
            are_foes(t@, foes@),
            keys@.len() == foes@.len(),
            order@.len() == foes@.len(),
            forall|k: int| 0 <= k < order@.len() ==> (#[trigger] order@[k]) < foes@.len(),
            even_upto(b, who as int, foes@, keys@, order@, i as nat) == Ok::<Seq<usize>, Query>(tied@),
            are_foes(t@, tied@),
        decreases order@.len() - i,
    {
        let best: usize = order[0];
        let p: usize = order[i];
        if keys[p].a == keys[best].a {
            if keys[p].b == keys[best].b {
                tied.push(foes[p]);
            } else {
                match b.truth(Query::Even { who, foe: foes[p], best: foes[best], full: keys[p].a == 0 }) {
                    Err(q) => {
                        proof {
                            lemma_even_asks(
                                b,
                                who as int,
                                foes@,
                                keys@,
                                order@,
                                (i + 1) as nat,
                                foes@.len(),
                                q,
                            );
                        }
                        return Err(q);
                    },
                    Ok(even) => {
                        if even {
                            tied.push(foes[p]);
                        }
                    },
                }
            }
        }
        i += 1;
    }
    Ok(tied)
}

fn find_best_mission(t: &Turn, b: &Book, who: usize, foes: &Vec<usize>) -> (r: Result<
    Option<HexCoord>,
    Query,
>)
    requires
        who < t.own@.len(),
        are_foes(t@, foes@),
    ensures
        r == best_mission(t@, b, who as int, foes@),
{
    let gathered_keys = match barrage_keys(t, b, who, foes) {
        Err(q) => {
            return Err(q);
        },
        Ok(keys) => keys,
    };
    proof {
        lemma_gathered_len(foes@, barrage_key(t@, b, who as int));
        assert forall|i: int| 0 <= i < gathered_keys@.len() implies (
        #[trigger] gathered_keys@[i]) is Some by {
            assert(barrage_key(t@, b, who as int)(foes@[i]) == Ok::<Option<Key>, Query>(
                gathered_keys@[i],
            ));
        }
    }
    let keys: Vec<Key> = plain_keys(&gathered_keys);
    let order: Vec<usize> = rank(&keys);
    match find_even(t, b, who, foes, &keys, &order) {
        Err(q) => Err(q),
        Ok(tied) => {
            let draw = Query::Draw { who, below: tied.len() };
            match b.number(draw) {
                Err(q) => Err(q),
                Ok(n) => if n >= 0 && (n as u64) < tied.len() as u64 {
                    Ok(Some(t.enemy[tied[n as usize]].position))
                } else {
                    Err(draw)
                },
            }
        },
    }
}

/// The hex that battalion `who` fires at, if it has a target.
pub fn choose_fire_target(t: &Turn, b: &Book, who: usize) -> (r: Result<Option<HexCoord>, Query>)
    requires
        who < t.own@.len(),
    ensures
        r == fire_target(t@, b, who as int),
{
    let reach: Vec<usize> = find_reach(t, who);
    if let Some(h) = find_ordered_target(t, who, &reach) {
        return Ok(Some(h));
    }
    let safe: Vec<usize> = safe_foes(t, who, &reach);
    if safe.len() == 0 {
        return Ok(None);
    }
    let assault_card = match t.tactic {
        CombatTactic::Assault => true,
        CombatTactic::RiverAssault => true,
        _ => false,
    };
    if assault_card || select_objective(t.tactic, t.outmatched) == StrategicObjective::Attrition {
        find_prepared_target(t, b, &safe)
    } else {
        find_best_mission(t, b, who, &safe)
    }
}

} // verus!
