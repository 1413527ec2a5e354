//! The plan of a side's turn.
use vstd::prelude::*;
use crate::action::{acts, booked, AiAction, Act};
use crate::duty::{duty, execute_unit};
use crate::goal::{distance_to_zone, in_spots, zone_contains, zone_distance};
use crate::hex::HexCoord;
use crate::march::{approach, march, screen, screen_threat};
use crate::pick::{
    find_least, first_where, indices, law_first_where, least, rank, ranked, those_where, Key,
};
use crate::retreat::{find_namesake, namesake};
use crate::role::{assign_role, pick_rearguard, rearguard_of, role_of};
use crate::tactic::CombatTactic;
use crate::turn::{
    enemy_distance, min_enemy_dist, number, place, proposed, Book, Query, Turn, TurnView,
};
use crate::unit::Side;

verus! {

// ---- the defender's answer to threatened flags ----

/// The battalion may be sent to a threatened flag: a line battalion out of
/// contact that has not acted and stands in no flag's zone.
pub open spec fn sendable(t: TurnView) -> spec_fn(usize) -> bool {
    |i: usize|
        {
            let u = t.own[i as int];
            &&& u.effective() && !u.acted
            &&& !u.kind.hq && !u.kind.indirect_artillery && !u.kind.gun
            &&& enemy_distance(t.enemy, u.position) > 1
            &&& forall|f: int| 0 <= f < t.flags.len() ==> !in_spots((#[trigger] t.flags[f]).zone@, u.position)
        }
}

/// The flags whose capture has begun.
pub open spec fn under_threat(t: TurnView) -> spec_fn(usize) -> bool {
    |f: usize| t.flags[f as int].progress > 0
}

/// How flags are ranked: the most captured first, then by the hex of the flag.
pub open spec fn threat_keys(t: TurnView, flags: Seq<usize>) -> Seq<Key> {
    flags.map_values(
        |f: usize|
            Key {
                a: (-t.flags[f as int].progress) as i128,
                b: t.flags[f as int].anchor.q as i128,
                c: t.flags[f as int].anchor.r as i128,
                d: 0,
            },
    )
}

/// The flags under threat, the most captured first.
pub open spec fn threatened(t: TurnView) -> Seq<usize> {
    let flags = those_where(indices(t.flags.len()), under_threat(t));
    ranked(threat_keys(t, flags)).map_values(|i: usize| flags[i as int])
}

/// The progress of all of the flags together.
pub open spec fn total_progress(t: TurnView, flags: Seq<usize>) -> int
    decreases flags.len(),
{
    if flags.len() == 0 {
        0
    } else {
        total_progress(t, flags.drop_last()) + t.flags[flags.last() as int].progress
    }
}

/// The progress at which a flag is captured, at least 1.
pub open spec fn flag_cap(t: TurnView) -> int {
    if t.params.flag_progress_cap < 1 {
        1
    } else {
        t.params.flag_progress_cap as int
    }
}

/// The battalions that may be sent to threatened flags.
pub open spec fn flag_pool(t: TurnView) -> Seq<usize> {
    those_where(indices(t.own.len()), sendable(t)).map_values(|i: usize| namesake(t.own, i as int))
}

/// The response to threatened flags so far: who can still be sent, the hexes
/// that are claimed, and what was ordered to whom, by id.
#[verifier::ext_equal]
pub struct ResponseView {
    pub pool: Seq<usize>,
    pub reserved: Seq<HexCoord>,
    pub sent: Seq<(usize, Act)>,
}

pub struct Response {
    pub pool: Vec<usize>,
    pub reserved: Vec<HexCoord>,
    pub sent: Vec<(usize, AiAction)>,
}

/// The orders as values.
pub open spec fn sent_views(s: Seq<(usize, AiAction)>) -> Seq<(usize, Act)> {
    s.map_values(|e: (usize, AiAction)| (e.0, e.1@))
}

impl View for Response {
    type V = ResponseView;

    open spec fn view(&self) -> ResponseView {
        ResponseView { pool: self.pool@, reserved: self.reserved@, sent: sent_views(self.sent@) }
    }
}

/// The claimed hexes with those that a command books.
pub open spec fn claim(reserved: Seq<HexCoord>, a: Act) -> Seq<HexCoord> {
    match booked(a) {
        Some(h) => reserved.push(h),
        None => reserved,
    }
}

/// How far the battalions of the pool are from a flag's zone.
pub open spec fn pool_keys(t: TurnView, pool: Seq<usize>, flag: int) -> Seq<Option<Key>> {
    pool.map_values(
        |i: usize|
            Some(
                Key {
                    a: zone_distance(t.flags[flag].zone@, t.own[i as int].position) as i128,
                    b: 0,
                    c: 0,
                    d: 0,
                },
            ),
    )
}

/// What battalion `who` does for a flag: beyond two thirds of the capture it
/// marches into the zone, before that it screens the flag.
pub open spec fn flag_order(t: TurnView, b: &Book, who: int, reserved: Seq<HexCoord>, flag: int) -> Result<
    Option<Act>,
    Query,
> {
    let f = t.flags[flag];
    if 3 * f.progress > 2 * flag_cap(t) {
        match place(b, Query::NearestHex { flag: flag as usize, who: who as usize }) {
            Err(q) => Err(q),
            Ok(goal) => approach(t, b, who, reserved, goal, None),
        }
    } else {
        screen(t, b, who, reserved, Some(f.anchor), 2)
    }
}

/// The nearest battalion of the pool is sent to a flag.
pub open spec fn send_one(t: TurnView, b: &Book, flag: int, r: ResponseView) -> Result<ResponseView, Query> {
    match least(pool_keys(t, r.pool, flag)) {
        None => Ok(r),
        Some(k) => {
            let who = r.pool[k];
            let left = ResponseView { pool: r.pool.remove(k), ..r };
            match flag_order(t, b, who as int, r.reserved, flag) {
                Err(q) => Err(q),
                Ok(None) => Ok(left),
                Ok(Some(a)) => Ok(
                    ResponseView { reserved: claim(r.reserved, a), sent: r.sent.push((t.own[who as int].id, a)), ..left },
                ),
            }
        },
    }
}

/// The `n` nearest battalions of the pool are sent to a flag, one after the
/// other.
pub open spec fn send(t: TurnView, b: &Book, flag: int, r: ResponseView, n: nat) -> Result<ResponseView, Query>
    decreases n,
{
    if n == 0 {
        Ok(r)
    } else {
        match send(t, b, flag, r, (n - 1) as nat) {
            Err(q) => Err(q),
            Ok(next) => send_one(t, b, flag, next),
        }
    }
}

/// How many battalions a flag gets of a pool, given its share.
pub open spec fn share_of(pool: nat, share: i64) -> nat {
    if share <= 0 {
        0
    } else if share >= pool {
        pool
    } else {
        share as nat
    }
}

/// The response to one flag: under a third of the capture there is none; else
/// it gets its share of the pool.
pub open spec fn respond(t: TurnView, b: &Book, flag: int, total: int, r: ResponseView) -> Result<
    ResponseView,
    Query,
> {
    let progress = t.flags[flag].progress;
    if r.pool.len() == 0 || 3 * progress < flag_cap(t) {
        Ok(r)
    } else {
        match number(
            b,
            Query::Share { pool: r.pool.len() as usize, progress, total: total as i128 },
        ) {
            Err(q) => Err(q),
            Ok(share) => send(t, b, flag, r, share_of(r.pool.len(), share)),
        }
    }
}

/// The response to the first `n` of the flags.
pub open spec fn respond_upto(
    t: TurnView,
    b: &Book,
    flags: Seq<usize>,
    total: int,
    r: ResponseView,
    n: nat,
) -> Result<ResponseView, Query>
    decreases n,
{
    if n == 0 {
        Ok(r)
    } else {
        match respond_upto(t, b, flags, total, r, (n - 1) as nat) {
            Err(q) => Err(q),
            Ok(next) => respond(t, b, flags[n - 1] as int, total, next),
        }
    }
}

/// The defender's response to threatened flags; the most captured take their
/// share of the pool first.
pub open spec fn flag_defense(t: TurnView, b: &Book) -> Result<ResponseView, Query> {
    let none = ResponseView { pool: Seq::empty(), reserved: Seq::empty(), sent: Seq::empty() };
    if t.side != Side::Defender {
        Ok(none)
    } else {
        let pool = flag_pool(t);
        let flags = threatened(t);
        respond_upto(
            t,
            b,
            flags,
            total_progress(t, flags),
            ResponseView { pool, ..none },
            flags.len(),
        )
    }
}

// ---- the turn ----

/// The orders to the battalion with an id.
pub open spec fn sent_to(id: usize) -> spec_fn((usize, Act)) -> bool {
    |e: (usize, Act)| e.0 == id
}

/// What battalion `i` does, if it gets a command: one that does not fight gets
/// none, nor, under a division's order, does one under the player's own command;
/// one that has acted holds, and one that is sent to a flag goes there.
pub open spec fn command(
    t: TurnView,
    b: &Book,
    sent: Seq<(usize, Act)>,
    rearguard: Option<usize>,
    division: bool,
    reserved: Seq<HexCoord>,
    i: int,
) -> Result<Option<Act>, Query> {
    let u = t.own[i];
    if !u.effective() {
        Ok(None)
    } else if division && u.manual_override {
        Ok(None)
    } else if u.acted {
        Ok(Some(Act::Hold { unit_id: u.id }))
    } else {
        match first_where(sent, sent_to(u.id)) {
            Some(k) => Ok(Some(sent[k].1)),
            None => match duty(t, b, i, reserved, role_of(t.tactic, u, rearguard)) {
                Err(q) => Err(q),
                Ok(a) => Ok(Some(a)),
            },
        }
    }
}

/// The plan so far: the commands and the hexes that are claimed.
#[verifier::ext_equal]
pub struct PlanView {
    pub acts: Seq<Act>,
    pub reserved: Seq<HexCoord>,
}

/// The commands of the first `n` battalions, each in sight of the hexes that
/// those before it claim.
pub open spec fn commands_upto(
    t: TurnView,
    b: &Book,
    sent: Seq<(usize, Act)>,
    rearguard: Option<usize>,
    division: bool,
    reserved: Seq<HexCoord>,
    n: nat,
) -> Result<PlanView, Query>
    decreases n,
{
    if n == 0 {
        Ok(PlanView { acts: Seq::empty(), reserved })
    } else {
        match commands_upto(t, b, sent, rearguard, division, reserved, (n - 1) as nat) {
            Err(q) => Err(q),
            Ok(p) => match command(t, b, sent, rearguard, division, p.reserved, n - 1) {
                Err(q) => Err(q),
                Ok(None) => Ok(p),
                Ok(Some(a)) => Ok(
                    PlanView { acts: p.acts.push(a), reserved: claim(p.reserved, a) },
                ),
            },
        }
    }
}

/// The rearguard of the turn: only a withdrawal has one.
pub open spec fn turn_rearguard(t: TurnView) -> Option<usize> {
    if t.tactic == CombatTactic::TacticalWithdrawal {
        rearguard_of(t.own, t.enemy)
    } else {
        None
    }
}

/// The plan of a side's turn.
pub open spec fn turn_plan(t: TurnView, b: &Book) -> Result<Seq<Act>, Query> {
    match flag_defense(t, b) {
        Err(q) => Err(q),
        Ok(r) => match commands_upto(
            t,
            b,
            r.sent,
            turn_rearguard(t),
            false,
            r.reserved,
            t.own.len(),
        ) {
            Err(q) => Err(q),
            Ok(p) => Ok(p.acts.push(Act::EndTurn)),
        },
    }
}

/// The plan of a division's turn under the player's order: flags draw no
/// response, there is no rearguard, and the turn is not ended.
pub open spec fn division_plan(t: TurnView, b: &Book) -> Result<Seq<Act>, Query> {
    match commands_upto(t, b, Seq::empty(), None, true, Seq::empty(), t.own.len()) {
        Err(q) => Err(q),
        Ok(p) => Ok(p.acts),
    }
}

fn can_be_sent(t: &Turn, i: usize) -> (b: bool)
    requires
        i < t.own@.len(),
    ensures
        b == sendable(t@)(i),
{
    let u = t.own[i];
    if !u.is_combat_effective() || u.acted || u.kind.hq || u.kind.indirect_artillery || u.kind.gun
        || min_enemy_dist(u.position, &t.enemy) <= 1 {
        return false;
    }
    let mut f: usize = 0;
    while f < t.flags.len()
        invariant
            f <= t.flags@.len(),
            i < t.own@.len(),
            u == t.own@[i as int],
            forall|g: int| 0 <= g < f ==> !in_spots((#[trigger] t.flags@[g]).zone@, u.position),
        decreases t.flags@.len() - f,
    {
        if zone_contains(&t.flags[f].zone, u.position) {
            assert(in_spots(t.flags@[f as int].zone@, u.position));
            return false;
        }
        f += 1;
    }
    true
}

/// All of them are indices of battalions of the side.
pub open spec fn are_own(t: TurnView, s: Seq<usize>) -> bool {
    forall|k: int| 0 <= k < s.len() ==> (#[trigger] s[k]) < t.own.len()
}

/// All of them are indices of flags.
pub open spec fn are_flags(t: TurnView, s: Seq<usize>) -> bool {
    forall|k: int| 0 <= k < s.len() ==> (#[trigger] s[k]) < t.flags.len()
}

fn find_pool(t: &Turn) -> (v: Vec<usize>)
    ensures
        v@ == flag_pool(t@),
        are_own(t@, v@),
{
    let ghost all = indices(t.own@.len());
    let ghost ok = sendable(t@);
    let ghost by_id = |i: usize| namesake(t@.own, i as int);
    let mut v: Vec<usize> = Vec::new();
    let mut i: usize = 0;
    assert(all.take(0) =~= Seq::<usize>::empty());
    assert(v@ =~= those_where(all.take(0), ok).map_values(by_id));
    while i < t.own.len()
        invariant
            i <= t.own@.len(),
            all == indices(t.own@.len()),
            ok == sendable(t@),
            by_id == (|i: usize| namesake(t@.own, i as int)),
            v@ == those_where(all.take(i as int), ok).map_values(by_id),
            are_own(t@, v@),
        decreases t.own@.len() - i,
    {
        proof {
            assert(all.take(i + 1).drop_last() =~= all.take(i as int));
            assert(all.take(i + 1).last() == i);
        }
        if can_be_sent(t, i) {
            v.push(find_namesake(t.own.as_slice(), i));
        }
        assert(v@ =~= those_where(all.take(i + 1), ok).map_values(by_id));
        i += 1;
    }
    assert(all.take(t.own@.len() as int) =~= all);
    v
}

fn flags_under_threat(t: &Turn) -> (v: Vec<usize>)
    ensures
        v@ == those_where(indices(t.flags@.len()), under_threat(t@)),
        are_flags(t@, v@),
{
    let ghost all = indices(t.flags@.len());
    let ghost ok = under_threat(t@);
    let mut v: Vec<usize> = Vec::new();
    let mut i: usize = 0;
    assert(all.take(0) =~= Seq::<usize>::empty());
    while i < t.flags.len()
        invariant
            i <= t.flags@.len(),
            all == indices(t.flags@.len()),
            ok == under_threat(t@),
            v@ == those_where(all.take(i as int), ok),
            are_flags(t@, v@),
        decreases t.flags@.len() - i,
    {
        proof {
            assert(all.take(i + 1).drop_last() =~= all.take(i as int));
            assert(all.take(i + 1).last() == i);
        }
        if t.flags[i].progress > 0 {
            v.push(i);
        }
        i += 1;
    }
    assert(all.take(t.flags@.len() as int) =~= all);
    v
}

fn find_threatened(t: &Turn) -> (out: Vec<usize>)
    ensures
        out@ == threatened(t@),
        are_flags(t@, out@),
{
    let flags: Vec<usize> = flags_under_threat(t);
    let mut keys: Vec<Key> = Vec::new();
    let mut i: usize = 0;
    while i < flags.len()
        invariant
            i <= flags@.len(),
            are_flags(t@, flags@),
            keys@ =~= threat_keys(t@, flags@).take(i as int),
        decreases flags@.len() - i,
    {
        let f = &t.flags[flags[i]];
        keys.push(
            Key {
                a: -(f.progress as i128),
                b: f.anchor.q as i128,
                c: f.anchor.r as i128,
                d: 0,
            },
        );
        i += 1;
    }
    assert(keys@ =~= threat_keys(t@, flags@));
    let order: Vec<usize> = rank(&keys);
    let ghost pick = |i: usize| flags@[i as int];
    let mut out: Vec<usize> = Vec::new();
    let mut k: usize = 0;
    while k < order.len()
        invariant
            k <= order@.len(),
            order@.len() == flags@.len(),
            are_flags(t@, flags@),
            are_flags(t@, out@),
            pick == (|i: usize| flags@[i as int]),
            forall|k: int| 0 <= k < order@.len() ==> (#[trigger] order@[k]) < flags@.len(),
            out@ =~= order@.map_values(pick).take(k as int),
        decreases order@.len() - k,
    {
        out.push(flags[order[k]]);
        k += 1;
    }
    assert(out@ =~= order@.map_values(pick));
    out
}

fn sum_progress(t: &Turn, flags: &Vec<usize>) -> (n: i128)
    requires
        are_flags(t@, flags@),
    ensures
        n == total_progress(t@, flags@),
{
    let mut n: i128 = 0;
    let mut i: usize = 0;
    assert(flags@.take(0) =~= Seq::<usize>::empty());
    while i < flags.len()
        invariant
            i <= flags@.len(),
            are_flags(t@, flags@),
            n == total_progress(t@, flags@.take(i as int)),
            -0x8000_0000 * i <= n <= 0x7fff_ffff * i,
        decreases flags@.len() - i,
    {
        assert(flags@.take(i + 1).drop_last() =~= flags@.take(i as int));
        n = n + t.flags[flags[i]].progress as i128;
        i += 1;
    }
    assert(flags@.take(flags@.len() as int) =~= flags@);
    n
}

fn find_nearest_of_pool(t: &Turn, pool: &Vec<usize>, flag: usize) -> (k: Option<usize>)
    requires
        are_own(t@, pool@),
        flag < t.flags@.len(),
    ensures
        match k {
            Some(i) => least(pool_keys(t@, pool@, flag as int)) == Some(i as int) && i < pool@.len(),
            None => least(pool_keys(t@, pool@, flag as int)) is None,
        },
{
    let mut keys: Vec<Option<Key>> = Vec::new();
    let mut i: usize = 0;
    while i < pool.len()
        invariant
            i <= pool@.len(),
            are_own(t@, pool@),
            flag < t.flags@.len(),
            keys@ =~= pool_keys(t@, pool@, flag as int).take(i as int),
        decreases pool@.len() - i,
    {
        let d: i64 = distance_to_zone(&t.flags[flag].zone, t.own[pool[i]].position);
        keys.push(Some(Key { a: d as i128, b: 0, c: 0, d: 0 }));
        i += 1;
    }
    assert(keys@ =~= pool_keys(t@, pool@, flag as int));
    find_least(&keys)
}

fn order_to_flag(t: &Turn, b: &Book, who: usize, reserved: &Vec<HexCoord>, flag: usize) -> (r: Result<
    Option<AiAction>,
    Query,
>)
    requires
        who < t.own@.len(),
        flag < t.flags@.len(),
    ensures
        proposed(r) == flag_order(t@, b, who as int, reserved@, flag as int),
{
    let f = &t.flags[flag];
    let cap: i64 = if t.params.flag_progress_cap < 1 {
        1
    } else {
        t.params.flag_progress_cap as i64
    };
    if 3 * (f.progress as i64) > 2 * cap {
        match b.place(Query::NearestHex { flag, who }) {
            Err(q) => Err(q),
            Ok(goal) => march(t, b, who, reserved, goal, None),
        }
    } else {
        screen_threat(t, b, who, reserved, Some(f.anchor), 2)
    }
}

/// The response that was found, as a value.
spec fn found_response(r: Result<Response, Query>) -> Result<ResponseView, Query> {
    match r {
        Ok(v) => Ok(v@),
        Err(q) => Err(q),
    }
}

fn send_nearest(t: &Turn, b: &Book, flag: usize, r: Response) -> (out: Result<Response, Query>)
    requires
        flag < t.flags@.len(),
        are_own(t@, r.pool@),
    ensures
        found_response(out) == send_one(t@, b, flag as int, r@),
        out matches Ok(v) ==> are_own(t@, v.pool@),
{
    let k = match find_nearest_of_pool(t, &r.pool, flag) {
        None => {
            return Ok(r);
        },
        Some(k) => k,
    };
    let Response { mut pool, mut reserved, mut sent } = r;
    let who: usize = pool[k];
    let order = match order_to_flag(t, b, who, &reserved, flag) {
        Err(q) => {
            return Err(q);
        },
        Ok(order) => order,
    };
    let _ = pool.remove(k);
    if let Some(a) = order {
        if let Some(h) = a.booking() {
            reserved.push(h);
        }
        let ghost before = sent@;
        let ghost act = a@;
        let id: usize = t.own[who].id;
        sent.push((id, a));
        assert(sent_views(sent@) =~= sent_views(before).push((id, act)));
    }
    Ok(Response { pool, reserved, sent })
}

fn send_many(t: &Turn, b: &Book, flag: usize, r: Response, n: usize) -> (out: Result<Response, Query>)
    requires
        flag < t.flags@.len(),
        are_own(t@, r.pool@),
    ensures
        found_response(out) == send(t@, b, flag as int, r@, n as nat),
        out matches Ok(v) ==> are_own(t@, v.pool@),
    decreases n,
{
    if n == 0 {
        return Ok(r);
    }
    match send_many(t, b, flag, r, n - 1) {
        Err(q) => Err(q),
        Ok(next) => send_nearest(t, b, flag, next),
    }
}

fn respond_to(t: &Turn, b: &Book, flag: usize, total: i128, r: Response) -> (out: Result<Response, Query>)
    requires
        flag < t.flags@.len(),
        are_own(t@, r.pool@),
    ensures
        found_response(out) == respond(t@, b, flag as int, total as int, r@),
        out matches Ok(v) ==> are_own(t@, v.pool@),
{
    let progress = t.flags[flag].progress;
    let cap: i64 = if t.params.flag_progress_cap < 1 {
        1
    } else {
        t.params.flag_progress_cap as i64
    };
    let size: usize = r.pool.len();
    if size == 0 || 3 * (progress as i64) < cap {
        return Ok(r);
    }
    match b.number(Query::Share { pool: size, progress, total }) {
        Err(q) => Err(q),
        Ok(share) => {
            let n: usize = if share <= 0 {
                0
            } else if share as u64 >= size as u64 {
                size
            } else {
                share as usize
            };
            send_many(t, b, flag, r, n)
        },
    }
}

fn respond_to_all(t: &Turn, b: &Book, flags: &Vec<usize>, total: i128, r: Response) -> (out: Result<
    Response,
    Query,
>)
    requires
        are_flags(t@, flags@),
        are_own(t@, r.pool@),
    ensures
        found_response(out) == respond_upto(t@, b, flags@, total as int, r@, flags@.len()),
{
    let ghost start = r@;
    let mut so_far = r;
    let mut i: usize = 0;
    while i < flags.len()
        invariant
            i <= flags@.len(),
            are_flags(t@, flags@),
            are_own(t@, so_far.pool@),
            start == r@,
            respond_upto(t@, b, flags@, total as int, start, i as nat) == Ok::<ResponseView, Query>(
                so_far@,
            ),
        decreases flags@.len() - i,
    {
        match respond_to(t, b, flags[i], total, so_far) {
            Err(q) => {
                proof {
                    lemma_response_asks(
                        t@,
                        b,
                        flags@,
                        total as int,
                        start,
                        (i + 1) as nat,
                        flags@.len(),
                        q,
                    );
                }
                return Err(q);
            },
            Ok(next) => {
                so_far = next;
            },
        }
        i += 1;
    }
    Ok(so_far)
}

fn plan_flag_defense(t: &Turn, b: &Book) -> (out: Result<Response, Query>)
    ensures
        found_response(out) == flag_defense(t@, b),
{
    let none: Vec<(usize, AiAction)> = Vec::new();
    assert(sent_views(none@) =~= Seq::<(usize, Act)>::empty());
    if t.side != Side::Defender {
        return Ok(Response { pool: Vec::new(), reserved: Vec::new(), sent: none });
    }
    let flags: Vec<usize> = find_threatened(t);
    let total: i128 = sum_progress(t, &flags);
    let r = Response { pool: find_pool(t), reserved: Vec::new(), sent: none };
    respond_to_all(t, b, &flags, total, r)
}

proof fn lemma_response_asks(
    t: TurnView,
    b: &Book,
    flags: Seq<usize>,
    total: int,
    r: ResponseView,
    i: nat,
    n: nat,
    q: Query,
)
    requires
        i <= n,
        respond_upto(t, b, flags, total, r, i) == Err::<ResponseView, Query>(q),
    ensures
        respond_upto(t, b, flags, total, r, n) == Err::<ResponseView, Query>(q),
    decreases n - i,
{
    if i < n {
        lemma_response_asks(t, b, flags, total, r, i + 1, n, q);
    }
}

fn find_sent(sent: &Vec<(usize, AiAction)>, id: usize) -> (k: Option<usize>)
    ensures
        match k {
            Some(n) => first_where(sent_views(sent@), sent_to(id)) == Some(n as int) && n < sent@.len(),
            None => first_where(sent_views(sent@), sent_to(id)) is None,
        },
{
    let ghost views = sent_views(sent@);
    let ghost ok = sent_to(id);
    let mut n: usize = 0;
    while n < sent.len()
        invariant
            n <= sent@.len(),
            views == sent_views(sent@),
            ok == sent_to(id),
            forall|j: int| 0 <= j < n ==> !ok(#[trigger] views[j]),
        decreases sent@.len() - n,
    {
        if sent[n].0 == id {
            proof {
                law_first_where(views, ok);
                assert(ok(views[n as int]));
            }
            return Some(n);
        }
        assert(!ok(views[n as int]));
        n += 1;
    }
    proof {
        law_first_where(views, ok);
    }
    None
}

fn command_unit(
    t: &Turn,
    b: &Book,
    sent: &Vec<(usize, AiAction)>,
    rearguard: Option<usize>,
    division: bool,
    reserved: &Vec<HexCoord>,
    i: usize,
) -> (r: Result<Option<AiAction>, Query>)
    requires
        i < t.own@.len(),
    ensures
        proposed(r) == command(
            t@,
            b,
            sent_views(sent@),
            rearguard,
            division,
            reserved@,
            i as int,
        ),
{
    let u = t.own[i];
    if !u.is_combat_effective() {
        return Ok(None);
    }
    if division && u.manual_override {
        return Ok(None);
    }
    if u.acted {
        return Ok(Some(AiAction::Hold { unit_id: u.id }));
    }
    if let Some(k) = find_sent(sent, u.id) {
        return Ok(Some(sent[k].1.copied()));
    }
    let role = assign_role(t.tactic, &u, rearguard);
    match execute_unit(t, b, i, reserved, role) {
        Err(q) => Err(q),
        Ok(a) => Ok(Some(a)),
    }
}

/// The plan of the commands, as a value.
spec fn found_plan(r: Result<(Vec<AiAction>, Vec<HexCoord>), Query>) -> Result<PlanView, Query> {
    match r {
        Ok(p) => Ok(PlanView { acts: acts(p.0@), reserved: p.1@ }),
        Err(q) => Err(q),
    }
}

proof fn lemma_commands_ask(
    t: TurnView,
    b: &Book,
    sent: Seq<(usize, Act)>,
    rearguard: Option<usize>,
    division: bool,
    reserved: Seq<HexCoord>,
    i: nat,
    n: nat,
    q: Query,
)
    requires
        i <= n,
        commands_upto(t, b, sent, rearguard, division, reserved, i) == Err::<PlanView, Query>(q),
    ensures
        commands_upto(t, b, sent, rearguard, division, reserved, n) == Err::<PlanView, Query>(q),
    decreases n - i,
{
    if i < n {
        lemma_commands_ask(t, b, sent, rearguard, division, reserved, i + 1, n, q);
    }
}

fn command_all(
    t: &Turn,
    b: &Book,
    sent: &Vec<(usize, AiAction)>,
    rearguard: Option<usize>,
    division: bool,
    reserved: Vec<HexCoord>,
) -> (r: Result<(Vec<AiAction>, Vec<HexCoord>), Query>)
    ensures
        found_plan(r) == commands_upto(
            t@,
            b,
            sent_views(sent@),
            rearguard,
            division,
            reserved@,
            t.own@.len(),
        ),
{
    let ghost orders = sent_views(sent@);
    let ghost start = reserved@;
    let mut claimed: Vec<HexCoord> = reserved;
    let mut actions: Vec<AiAction> = Vec::new();
    let mut i: usize = 0;
    assert(acts(actions@) =~= Seq::<Act>::empty());
    while i < t.own.len()
        invariant
            i <= t.own@.len(),
            orders == sent_views(sent@),
            start == reserved@,
            commands_upto(t@, b, orders, rearguard, division, start, i as nat) == Ok::<PlanView, Query>(
                PlanView { acts: acts(actions@), reserved: claimed@ },
            ),
        decreases t.own@.len() - i,
    {
        match command_unit(t, b, sent, rearguard, division, &claimed, i) {
            Err(q) => {
                proof {
                    lemma_commands_ask(
                        t@,
                        b,
                        orders,
                        rearguard,
                        division,
                        start,
                        (i + 1) as nat,
                        t.own@.len(),
                        q,
                    );
                }
                return Err(q);
            },
            Ok(None) => {},
            Ok(Some(a)) => {
                if let Some(h) = a.booking() {
                    claimed.push(h);
                }
                let ghost before = actions@;
                let ghost act = a@;
                actions.push(a);
                assert(acts(actions@) =~= acts(before).push(act));
            },
        }
        i += 1;
    }
    Ok((actions, claimed))
}

/// A plan, as a value.
pub open spec fn plan_of(r: Result<Vec<AiAction>, Query>) -> Result<Seq<Act>, Query> {
    match r {
        Ok(v) => Ok(acts(v@)),
        Err(q) => Err(q),
    }
}

/// Plans a side's turn: the commands in order, the last of them to end the
/// turn. Asks for a fact that the book lacks.
pub fn plan(t: &Turn, b: &Book) -> (r: Result<Vec<AiAction>, Query>)
    ensures
        plan_of(r) == turn_plan(t@, b),
{
    let rearguard = match t.tactic {
        CombatTactic::TacticalWithdrawal => pick_rearguard(&t.own, &t.enemy),
        _ => None,
    };
    let response = match plan_flag_defense(t, b) {
        Err(q) => {
            return Err(q);
        },
        Ok(response) => response,
    };
    match command_all(t, b, &response.sent, rearguard, false, response.reserved) {
        Err(q) => Err(q),
        Ok(p) => {
            let (mut actions, _) = p;
            let ghost before = actions@;
            actions.push(AiAction::EndTurn);
            assert(acts(actions@) =~= acts(before).push(Act::EndTurn));
            Ok(actions)
        },
    }
}

/// Plans the turn of a division under the player's order. Asks for a fact that
/// the book lacks.
pub fn plan_division(t: &Turn, b: &Book) -> (r: Result<Vec<AiAction>, Query>)
    ensures
        plan_of(r) == division_plan(t@, b),
{
    let none: Vec<(usize, AiAction)> = Vec::new();
    assert(sent_views(none@) =~= Seq::<(usize, Act)>::empty());
    match command_all(t, b, &none, None, true, Vec::new()) {
        Err(q) => Err(q),
        Ok(p) => Ok(p.0),
    }
}

} // verus!
