//! What holds of every plan.
use vstd::prelude::*;
use crate::action::{actor, booked, Act};
use crate::assault::{
    all_prey, as_good_as, assault, blind_prey, by_hex, chosen_prey, in_rout, in_sight, is_prey, odds_acceptable,
    permitted, prey_upto, quarry, stormed, target_key, target_keys, whatever_the_trade,
};
use crate::barrage::{
    barrage_key, best_mission, by_point, even_upto, fire_target, in_reach, ordered_target, plain, precise_target,
    preparation, prepared_target, prepares_assault, reach_of, safe_for, safe_target, volley_key, weakest, weakness_keys, with_id,
};
use crate::duty::{
    advance_duty, assault_duty, attached_duty, counter_duty, creeping_duty, duty, elastic_duty,
    flank_duty, follow_division, guards_flag, gun_duty, hold_duty, hq_duty, limbered_duty,
    line_duty, mission, probe_duty, raid_duty, ranked_posts, reserve_duty, shoulder_duty,
    support_duty, to_a_post,
};
use crate::hex::{hex_distance, HexCoord};
use crate::march::{
    approach, back_step, best_step, cut_short, judged, looming, marching_path, screen, screen_key,
    step_key, step_order, too_near, unclaimed, StepRule,
};
use crate::pick::{
    count_where, first_where, indices, law_first_where, law_least, law_ranking, law_those_where, least, ranked,
    those_where, Key,
};
use crate::planner::{
    claim, command, commands_upto, division_plan, flag_defense, flag_order, flag_pool, respond_upto,
    send, send_one, sent_to, share_of, threatened, total_progress, turn_plan, turn_rearguard, PlanView,
    ResponseView,
};
use crate::role::{role_of, UnitRole};
use crate::settle::ids_differ;
use crate::tactic::CombatTactic;
use crate::turn::{
    enemy_distance, fighting, gathered, held_by_other, lemma_gathered_len, number, place, route_at,
    truth, Book, Query, TurnView,
};
use crate::unit::{BattalionUnit, Side};

verus! {

/// A march leads somewhere: its path is not empty.
pub open spec fn leads_on(a: Act) -> bool {
    a matches Act::MoveUnit { path, .. } ==> path.len() > 0
}

/// The command is for battalion `u`, it is no march without a path, and the hex
/// that it books, if any, nobody has claimed.
pub open spec fn sound(u: BattalionUnit, reserved: Seq<HexCoord>, a: Act) -> bool {
    &&& actor(a) == Some(u.id)
    &&& leads_on(a)
    &&& booked(a) matches Some(h) ==> !reserved.contains(h)
}

/// A proposal is sound if there is one.
pub open spec fn sound_offer(u: BattalionUnit, reserved: Seq<HexCoord>, r: Result<Option<Act>, Query>) -> bool {
    r matches Ok(Some(a)) ==> sound(u, reserved, a)
}

/// A decision is sound if there is one.
pub open spec fn sound_choice(u: BattalionUnit, reserved: Seq<HexCoord>, r: Result<Act, Query>) -> bool {
    r matches Ok(a) ==> sound(u, reserved, a)
}

proof fn lemma_step_sound(t: TurnView, b: &Book, who: int, reserved: Seq<HexCoord>, rule: StepRule)
    ensures
        sound_offer(t.own[who], reserved, step_order(t, b, who, reserved, rule)),
{
    let exits = t.grid.exits(t.own[who].position);
    let f = step_key(t, b, who, reserved, rule);
    lemma_gathered_len(exits, f);
    if let Ok(keys) = gathered(exits, f) {
        law_least(keys);
        if let Some(i) = least(keys) {
            assert(f(exits[i]) == Ok::<Option<Key>, Query>(keys[i]));
            assert(!reserved.contains(exits[i]));
            assert(seq![exits[i]].last() == exits[i]);
        }
    }
}

proof fn lemma_unclaimed(p: Seq<HexCoord>, reserved: Seq<HexCoord>)
    ensures
        unclaimed(p, reserved).len() > 0 ==> !reserved.contains(unclaimed(p, reserved).last()),
        unclaimed(p, reserved).len() <= p.len(),
        unclaimed(p, reserved) == p.take(unclaimed(p, reserved).len() as int),
    decreases p.len(),
{
    if p.len() > 0 && reserved.contains(p.last()) {
        lemma_unclaimed(p.drop_last(), reserved);
        let n = unclaimed(p, reserved).len() as int;
        assert(p.drop_last().take(n) =~= p.take(n));
    } else {
        assert(p.take(p.len() as int) =~= p);
    }
}

proof fn lemma_approach_sound(
    t: TurnView,
    b: &Book,
    who: int,
    reserved: Seq<HexCoord>,
    goal: Option<HexCoord>,
    standoff: Option<i64>,
)
    ensures
        sound_offer(t.own[who], reserved, approach(t, b, who, reserved, goal, standoff)),
{
    if let Some(g) = goal {
        if let Ok(Some(p)) = marching_path(t, b, who, reserved, g) {
            lemma_unclaimed(cut_short(looming(t), p, standoff), reserved);
        }
    }
}

proof fn lemma_route_leads(b: &Book, who: int, dest: HexCoord)
    requires
        b.valid(),
    ensures
        route_at(b, who, dest) matches Ok(Some(i)) ==> 0 <= i < b.routes@.len() && b.routes@[i].path@.len() > 0
            && b.routes@[i].path@.last() == dest,
{
    law_first_where(b.routes@, |r: crate::turn::Route| r.who == who && r.dest == dest);
}

proof fn lemma_screen_sound(
    t: TurnView,
    b: &Book,
    who: int,
    reserved: Seq<HexCoord>,
    threat: Option<HexCoord>,
    standoff: u8,
)
    requires
        b.valid(),
    ensures
        sound_offer(t.own[who], reserved, screen(t, b, who, reserved, threat, standoff)),
{
    if let Some(h) = threat {
        lemma_approach_sound(t, b, who, reserved, threat, Some(standoff as i64));
        let ring = crate::hex::disc(h, standoff as nat);
        let f = screen_key(t, b, who, reserved, h, standoff as int);
        lemma_gathered_len(ring, f);
        if let Ok(keys) = gathered(ring, f) {
            law_least(keys);
            if let Some(i) = least(keys) {
                assert(f(ring[i]) == Ok::<Option<Key>, Query>(keys[i]));
                assert(!reserved.contains(ring[i]));
                lemma_route_leads(b, who, ring[i]);
            }
        }
    }
}

proof fn lemma_posts_sound(t: TurnView, b: &Book, who: int, reserved: Seq<HexCoord>, posts: Seq<HexCoord>, k: nat)
    ensures
        sound_offer(t.own[who], reserved, to_a_post(t, b, who, reserved, posts, k)),
    decreases posts.len() - k,
{
    if k < posts.len() {
        lemma_approach_sound(t, b, who, reserved, Some(posts[k as int]), Some(2));
        lemma_posts_sound(t, b, who, reserved, posts, k + 1);
    }
}

/// An assault books no hex, and it is the battalion's own.
proof fn lemma_assault_sound(t: TurnView, b: &Book, who: int, reserved: Seq<HexCoord>)
    ensures
        sound_offer(t.own[who], reserved, assault(t, b, who)),
{
}

proof fn lemma_support_sound(t: TurnView, b: &Book, who: int, reserved: Seq<HexCoord>)
    ensures
        sound_choice(t.own[who], reserved, support_duty(t, b, who, reserved)),
{
    let u = t.own[who];
    let goal = crate::duty::march_goal(t, reserved, u);
    lemma_step_sound(t, b, who, reserved, StepRule::Displace);
    lemma_approach_sound(t, b, who, reserved, goal, Some(crate::march::ARTILLERY_MIN_STANDOFF));
    lemma_approach_sound(t, b, who, reserved, goal, Some(u.attack_range));
    assert(sound_choice(u, reserved, limbered_duty(t, b, who, reserved)));
    assert(sound_choice(u, reserved, creeping_duty(t, b, who, reserved)));
    assert(sound_offer(u, reserved, mission(t, b, who)));
    assert(sound_choice(u, reserved, gun_duty(t, b, who, reserved)));
}

proof fn lemma_hq_sound(t: TurnView, b: &Book, who: int, reserved: Seq<HexCoord>)
    ensures
        sound_choice(t.own[who], reserved, hq_duty(t, b, who, reserved)),
{
    let u = t.own[who];
    if let Ok(Some(anchor)) = crate::duty::division_anchor(t, b, who) {
        let now = enemy_distance(t.enemy, u.position) as i64;
        lemma_step_sound(
            t,
            b,
            who,
            reserved,
            StepRule::Shadow { now, anchor, leash: t.params.hq_aura_radius },
        );
        lemma_approach_sound(t, b, who, reserved, u.move_to, Some(2));
        lemma_approach_sound(t, b, who, reserved, Some(anchor), Some(2));
        lemma_posts_sound(t, b, who, reserved, ranked_posts(t, u, anchor), 0);
        assert(sound_choice(u, reserved, follow_division(t, b, who, reserved, anchor)));
    }
}

proof fn lemma_movers_sound(t: TurnView, b: &Book, who: int, reserved: Seq<HexCoord>)
    ensures
        sound_choice(t.own[who], reserved, probe_duty(t, b, who, reserved)),
        sound_choice(t.own[who], reserved, flank_duty(t, b, who, reserved)),
        sound_choice(t.own[who], reserved, attached_duty(t, b, who, reserved)),
        sound_choice(t.own[who], reserved, reserve_duty(t, b, who, reserved)),
{
    let u = t.own[who];
    lemma_assault_sound(t, b, who, reserved);
    if let Ok(goal) = crate::duty::flank_goal(t, b, u) {
        lemma_approach_sound(t, b, who, reserved, goal, None);
    }
    if let Some(i) = least(crate::duty::anchor_keys(t, u)) {
        lemma_approach_sound(t, b, who, reserved, Some(t.own[i].position), None);
    }
    let now = enemy_distance(t.enemy, u.position) as i64;
    lemma_step_sound(t, b, who, reserved, StepRule::Withdraw { now });
}

proof fn lemma_assaulters_sound(t: TurnView, b: &Book, who: int, reserved: Seq<HexCoord>)
    ensures
        sound_choice(t.own[who], reserved, assault_duty(t, b, who, reserved)),
{
    let u = t.own[who];
    lemma_assault_sound(t, b, who, reserved);
    lemma_step_sound(t, b, who, reserved, StepRule::Evade);
    let raid = match crate::turn::isolated_enemy_hex(t.enemy, u.position) {
        Some(h) => Some(h),
        None => crate::goal::blind_goal(t, u.position),
    };
    lemma_approach_sound(t, b, who, reserved, raid, Some(2));
    lemma_approach_sound(
        t,
        b,
        who,
        reserved,
        crate::turn::isolated_enemy_hex(t.enemy, u.position),
        None,
    );
    lemma_approach_sound(t, b, who, reserved, crate::duty::march_goal(t, reserved, u), None);
    let goal = match crate::turn::nearest_enemy_hex(t.enemy, u.position) {
        Some(h) => Some(h),
        None => crate::goal::blind_goal(t, u.position),
    };
    if let Some(g) = goal {
        lemma_step_sound(
            t,
            b,
            who,
            reserved,
            StepRule::Close { now: hex_distance(u.position, g) as i64, goal: g },
        );
    }
    assert(sound_choice(u, reserved, raid_duty(t, b, who, reserved)));
    assert(sound_choice(u, reserved, advance_duty(t, b, who, reserved)));
}

proof fn lemma_line_sound(t: TurnView, b: &Book, who: int, reserved: Seq<HexCoord>)
    requires
        b.valid(),
    ensures
        sound_choice(t.own[who], reserved, hold_duty(t, b, who, reserved)),
{
    let u = t.own[who];
    let now = enemy_distance(t.enemy, u.position) as i64;
    lemma_assault_sound(t, b, who, reserved);
    lemma_step_sound(t, b, who, reserved, StepRule::FallBack { now });
    lemma_step_sound(
        t,
        b,
        who,
        reserved,
        StepRule::Cover { now, ground: crate::march::cover_at(t, u.position) },
    );
    lemma_screen_sound(
        t,
        b,
        who,
        reserved,
        crate::turn::nearest_enemy_hex(t.enemy, u.position),
        2,
    );
    let goal = match crate::goal::order_goal(t, reserved, u) {
        Some(h) => Some(h),
        None => crate::goal::blind_goal(t, u.position),
    };
    lemma_approach_sound(t, b, who, reserved, goal, None);
    assert(sound_choice(u, reserved, shoulder_duty(t, b, who, reserved)));
    assert(sound_choice(u, reserved, elastic_duty(t, b, who, reserved)));
    assert(sound_choice(u, reserved, counter_duty(t, b, who, reserved)));
    assert(sound_choice(u, reserved, line_duty(t, b, who, reserved)));
}

/// Whatever its role, a battalion is given a command of its own that books no
/// hex that is claimed already and is no march without a path.
pub proof fn law_duty_books_no_claimed_hex(
    t: TurnView,
    b: &Book,
    who: int,
    reserved: Seq<HexCoord>,
    role: UnitRole,
)
    requires
        b.valid(),
    ensures
        sound_choice(t.own[who], reserved, duty(t, b, who, reserved, role)),
{
    lemma_support_sound(t, b, who, reserved);
    lemma_hq_sound(t, b, who, reserved);
    lemma_movers_sound(t, b, who, reserved);
    lemma_assaulters_sound(t, b, who, reserved);
    lemma_line_sound(t, b, who, reserved);
}

/// A launcher that reloads is given no fire mission, whatever its role.
pub proof fn law_reloading_launchers_do_not_fire(
    t: TurnView,
    b: &Book,
    who: int,
    reserved: Seq<HexCoord>,
    role: UnitRole,
)
    requires
        t.own[who].fire_cooldown > 0,
    ensures
        duty(t, b, who, reserved, role) matches Ok(a) ==> !(a is FireSupport),
{
    lemma_posts_do_not_fire(t, b, who, reserved);
    lemma_guns_do_not_fire(t, b, who, reserved);
    lemma_movers_do_not_fire(t, b, who, reserved);
    lemma_assaulters_do_not_fire(t, b, who, reserved);
    lemma_lines_do_not_fire(t, b, who, reserved);
}

proof fn lemma_guns_do_not_fire(t: TurnView, b: &Book, who: int, reserved: Seq<HexCoord>)
    requires
        t.own[who].fire_cooldown > 0,
    ensures
        support_duty(t, b, who, reserved) matches Ok(a) ==> !(a is FireSupport),
{
    assert(mission(t, b, who) == Ok::<Option<Act>, Query>(None));
    assert(creeping_duty(t, b, who, reserved) matches Ok(a) ==> !(a is FireSupport));
    assert(gun_duty(t, b, who, reserved) matches Ok(a) ==> !(a is FireSupport));
}

proof fn lemma_movers_do_not_fire(t: TurnView, b: &Book, who: int, reserved: Seq<HexCoord>)
    ensures
        probe_duty(t, b, who, reserved) matches Ok(a) ==> !(a is FireSupport),
        flank_duty(t, b, who, reserved) matches Ok(a) ==> !(a is FireSupport),
        attached_duty(t, b, who, reserved) matches Ok(a) ==> !(a is FireSupport),
        reserve_duty(t, b, who, reserved) matches Ok(a) ==> !(a is FireSupport),
{
}

proof fn lemma_assaulters_do_not_fire(t: TurnView, b: &Book, who: int, reserved: Seq<HexCoord>)
    ensures
        assault_duty(t, b, who, reserved) matches Ok(a) ==> !(a is FireSupport),
{
    assert(raid_duty(t, b, who, reserved) matches Ok(a) ==> !(a is FireSupport));
    assert(advance_duty(t, b, who, reserved) matches Ok(a) ==> !(a is FireSupport));
}

proof fn lemma_lines_do_not_fire(t: TurnView, b: &Book, who: int, reserved: Seq<HexCoord>)
    ensures
        hold_duty(t, b, who, reserved) matches Ok(a) ==> !(a is FireSupport),
{
    assert(shoulder_duty(t, b, who, reserved) matches Ok(a) ==> !(a is FireSupport));
    assert(elastic_duty(t, b, who, reserved) matches Ok(a) ==> !(a is FireSupport));
    assert(counter_duty(t, b, who, reserved) matches Ok(a) ==> !(a is FireSupport));
    assert(line_duty(t, b, who, reserved) matches Ok(a) ==> !(a is FireSupport));
}

proof fn lemma_to_a_post_does_not_fire(
    t: TurnView,
    b: &Book,
    who: int,
    reserved: Seq<HexCoord>,
    posts: Seq<HexCoord>,
    k: nat,
)
    ensures
        to_a_post(t, b, who, reserved, posts, k) matches Ok(Some(a)) ==> !(a is FireSupport),
    decreases posts.len() - k,
{
    if k < posts.len() {
        lemma_to_a_post_does_not_fire(t, b, who, reserved, posts, k + 1);
    }
}

proof fn lemma_posts_do_not_fire(t: TurnView, b: &Book, who: int, reserved: Seq<HexCoord>)
    ensures
        hq_duty(t, b, who, reserved) matches Ok(a) ==> !(a is FireSupport),
{
    let u = t.own[who];
    if let Ok(Some(anchor)) = crate::duty::division_anchor(t, b, who) {
        lemma_to_a_post_does_not_fire(t, b, who, reserved, ranked_posts(t, u, anchor), 0);
    }
}

/// No two of the commands book one hex.
pub open spec fn books_differ(s: Seq<Act>) -> bool {
    forall|x: int, y: int|
        0 <= x < y < s.len() && booked(#[trigger] s[x]) is Some ==> booked(s[x]) != booked(
            #[trigger] s[y],
        )
}

/// The orders to flags are in order: each is for the battalion with the id that
/// it stands under, it is no march without a path, it books a hex that is claimed
/// for it, and no two book one hex.
pub open spec fn response_ok(r: ResponseView) -> bool {
    &&& forall|k: int|
        0 <= k < r.sent.len() ==> {
            let e = #[trigger] r.sent[k];
            &&& actor(e.1) == Some(e.0)
            &&& leads_on(e.1)
            &&& booked(e.1) matches Some(h) ==> r.reserved.contains(h)
        }
    &&& forall|x: int, y: int|
        0 <= x < y < r.sent.len() && booked((#[trigger] r.sent[x]).1) is Some ==> booked(r.sent[x].1)
            != booked((#[trigger] r.sent[y]).1)
}

proof fn lemma_claimed_stays(reserved: Seq<HexCoord>, a: Act, h: HexCoord)
    ensures
        reserved.contains(h) ==> claim(reserved, a).contains(h),
        booked(a) == Some(h) ==> claim(reserved, a).contains(h),
{
    let next = claim(reserved, a);
    if reserved.contains(h) {
        let i = choose|i: int| 0 <= i < reserved.len() && reserved[i] == h;
        assert(next[i] == h);
    }
    if booked(a) == Some(h) {
        assert(next[reserved.len() as int] == h);
    }
}

proof fn lemma_send_one_ok(t: TurnView, b: &Book, flag: int, r: ResponseView)
    requires
        b.valid(),
        response_ok(r),
    ensures
        send_one(t, b, flag, r) matches Ok(next) ==> response_ok(next),
{
    let keys = crate::planner::pool_keys(t, r.pool, flag);
    law_least(keys);
    if let Some(k) = least(keys) {
        let who = r.pool[k];
        let f = t.flags[flag];
        lemma_screen_sound(t, b, who as int, r.reserved, Some(f.anchor), 2);
        if let Ok(goal) = place(b, Query::NearestHex { flag: flag as usize, who }) {
            lemma_approach_sound(t, b, who as int, r.reserved, goal, None);
        }
        if let Ok(Some(a)) = flag_order(t, b, who as int, r.reserved, flag) {
            let next = ResponseView {
                pool: r.pool.remove(k),
                reserved: claim(r.reserved, a),
                sent: r.sent.push((t.own[who as int].id, a)),
            };
            assert(sound(t.own[who as int], r.reserved, a));
            assert forall|j: int| 0 <= j < next.sent.len() implies {
                let e = #[trigger] next.sent[j];
                &&& actor(e.1) == Some(e.0)
                &&& leads_on(e.1)
                &&& booked(e.1) matches Some(h) ==> next.reserved.contains(h)
            } by {
                if j < r.sent.len() {
                    assert(next.sent[j] == r.sent[j]);
                    if let Some(h) = booked(r.sent[j].1) {
                        lemma_claimed_stays(r.reserved, a, h);
                    }
                } else if let Some(h) = booked(a) {
                    lemma_claimed_stays(r.reserved, a, h);
                }
            }
            assert forall|x: int, y: int|
                0 <= x < y < next.sent.len() && booked((#[trigger] next.sent[x]).1) is Some implies booked(
                next.sent[x].1,
            ) != booked((#[trigger] next.sent[y]).1) by {
                assert(next.sent[x] == r.sent[x]);
                if y < r.sent.len() {
                    assert(next.sent[y] == r.sent[y]);
                }
            }
            assert(response_ok(next));
        }
    }
}

proof fn lemma_send_ok(t: TurnView, b: &Book, flag: int, r: ResponseView, n: nat)
    requires
        b.valid(),
        response_ok(r),
    ensures
        send(t, b, flag, r, n) matches Ok(next) ==> response_ok(next),
    decreases n,
{
    if n > 0 {
        lemma_send_ok(t, b, flag, r, (n - 1) as nat);
        if let Ok(next) = send(t, b, flag, r, (n - 1) as nat) {
            lemma_send_one_ok(t, b, flag, next);
        }
    }
}

proof fn lemma_respond_ok(
    t: TurnView,
    b: &Book,
    flags: Seq<usize>,
    total: int,
    r: ResponseView,
    n: nat,
)
    requires
        b.valid(),
        response_ok(r),
    ensures
        respond_upto(t, b, flags, total, r, n) matches Ok(next) ==> response_ok(next),
    decreases n,
{
    if n > 0 {
        lemma_respond_ok(t, b, flags, total, r, (n - 1) as nat);
        if let Ok(next) = respond_upto(t, b, flags, total, r, (n - 1) as nat) {
            let progress = t.flags[flags[n - 1] as int].progress;
            if let Ok(share) = number(
                b,
                Query::Share { pool: next.pool.len() as usize, progress, total: total as i128 },
            ) {
                lemma_send_ok(t, b, flags[n - 1] as int, next, share_of(next.pool.len(), share));
            }
        }
    }
}

proof fn lemma_flag_defense_ok(t: TurnView, b: &Book)
    requires
        b.valid(),
    ensures
        flag_defense(t, b) matches Ok(r) ==> response_ok(r) && (t.side != Side::Defender ==> r.sent.len() == 0),
{
    let start = ResponseView { pool: flag_pool(t), reserved: Seq::empty(), sent: Seq::empty() };
    assert(response_ok(start));
    let flags = threatened(t);
    lemma_respond_ok(t, b, flags, total_progress(t, flags), start, flags.len());
}

/// Which battalion each command so far is for, and why no two of the commands
/// book one hex where no two battalions share an id: one that was sent to a flag
/// goes where it was sent, and the others book hexes that were not claimed at the
/// start.
spec fn commands_ok(
    t: TurnView,
    sent: Seq<(usize, Act)>,
    start: Seq<HexCoord>,
    n: int,
    p: PlanView,
    who: Seq<int>,
) -> bool {
    &&& who.len() == p.acts.len()
    &&& forall|x: int|
        0 <= x < who.len() ==> {
            let i = #[trigger] who[x];
            &&& 0 <= i < n
            &&& t.own[i].effective()
            &&& actor(p.acts[x]) == Some(t.own[i].id)
            &&& leads_on(p.acts[x])
            &&& t.own[i].acted ==> p.acts[x] == Act::Hold { unit_id: t.own[i].id }
            &&& booked(p.acts[x]) matches Some(h) ==> {
                &&& p.reserved.contains(h)
                &&& match first_where(sent, sent_to(t.own[i].id)) {
                    Some(k) => p.acts[x] == sent[k].1,
                    None => !start.contains(h),
                }
            }
        }
    &&& forall|x: int, y: int| 0 <= x < y < who.len() ==> (#[trigger] who[x]) < (#[trigger] who[y])
    &&& forall|h: HexCoord| #[trigger] start.contains(h) ==> p.reserved.contains(h)
    &&& ids_differ(t.own) || sent.len() == 0 ==> books_differ(p.acts)
}

/// The battalions of a division that take orders: those that fight and are not
/// under the player's own command.
pub open spec fn at_hand() -> spec_fn(BattalionUnit) -> bool {
    |u: BattalionUnit| u.effective() && !u.manual_override
}

proof fn lemma_commands_ok(
    t: TurnView,
    b: &Book,
    r: ResponseView,
    rearguard: Option<usize>,
    division: bool,
    n: nat,
) -> (who: Seq<int>)
    requires
        b.valid(),
        response_ok(r),
        n <= t.own.len(),
    ensures
        commands_upto(t, b, r.sent, rearguard, division, r.reserved, n) matches Ok(p) ==> commands_ok(
            t,
            r.sent,
            r.reserved,
            n as int,
            p,
            who,
        ) && (!division ==> p.acts.len() == count_where(t.own.take(n as int), fighting())) && (division ==> {
            &&& p.acts.len() == count_where(t.own.take(n as int), at_hand())
            &&& forall|x: int| 0 <= x < who.len() ==> !t.own[#[trigger] who[x]].manual_override
        }),
    decreases n,
{
    if n == 0 {
        assert(t.own.take(0) =~= Seq::<BattalionUnit>::empty());
        Seq::empty()
    } else {
        let m = (n - 1) as nat;
        let before = lemma_commands_ok(t, b, r, rearguard, division, m);
        assert(t.own.take(n as int).drop_last() =~= t.own.take(m as int));
        assert(t.own.take(n as int).last() == t.own[m as int]);
        match commands_upto(t, b, r.sent, rearguard, division, r.reserved, m) {
            Err(_) => before,
            Ok(p) => {
                let i = m as int;
                let u = t.own[i];
                match command(t, b, r.sent, rearguard, division, p.reserved, i) {
                    Err(_) => before,
                    Ok(None) => before,
                    Ok(Some(a)) => {
                        let who = before.push(i);
                        let next = PlanView { acts: p.acts.push(a), reserved: claim(p.reserved, a) };
                        lemma_command_ok(t, b, r, rearguard, division, p.reserved, i);
                        lemma_commands_grow(t, r, i, p, before, a);
                        who
                    },
                }
            },
        }
    }
}

proof fn lemma_command_ok(
    t: TurnView,
    b: &Book,
    r: ResponseView,
    rearguard: Option<usize>,
    division: bool,
    reserved: Seq<HexCoord>,
    i: int,
)
    requires
        b.valid(),
        response_ok(r),
        0 <= i < t.own.len(),
    ensures
        command(t, b, r.sent, rearguard, division, reserved, i) matches Ok(Some(a)) ==> {
            &&& t.own[i].effective()
            &&& actor(a) == Some(t.own[i].id)
            &&& leads_on(a)
            &&& t.own[i].acted ==> a == Act::Hold { unit_id: t.own[i].id }
            &&& booked(a) matches Some(h) ==> match first_where(r.sent, sent_to(t.own[i].id)) {
                Some(k) => 0 <= k < r.sent.len() && r.sent[k].0 == t.own[i].id && a == r.sent[k].1,
                None => !reserved.contains(h),
            }
        },
{
    let u = t.own[i];
    law_first_where(r.sent, sent_to(u.id));
    law_duty_books_no_claimed_hex(t, b, i, reserved, role_of(t.tactic, u, rearguard));
}

proof fn lemma_commands_grow(t: TurnView, r: ResponseView, i: int, p: PlanView, before: Seq<int>, a: Act)
    requires
        response_ok(r),
        0 <= i < t.own.len(),
        commands_ok(t, r.sent, r.reserved, i, p, before),
        t.own[i].effective(),
        actor(a) == Some(t.own[i].id),
        leads_on(a),
        t.own[i].acted ==> a == (Act::Hold { unit_id: t.own[i].id }),
        booked(a) matches Some(h) ==> match first_where(r.sent, sent_to(t.own[i].id)) {
            Some(k) => 0 <= k < r.sent.len() && r.sent[k].0 == t.own[i].id && a == r.sent[k].1,
            None => !p.reserved.contains(h),
        },
    ensures
        commands_ok(
            t,
            r.sent,
            r.reserved,
            i + 1,
            (PlanView { acts: p.acts.push(a), reserved: claim(p.reserved, a) }),
            before.push(i),
        ),
{
    let next = PlanView { acts: p.acts.push(a), reserved: claim(p.reserved, a) };
    let who = before.push(i);
    assert forall|h: HexCoord| #[trigger] r.reserved.contains(h) implies next.reserved.contains(h) by {
        lemma_claimed_stays(p.reserved, a, h);
    }
    assert forall|x: int| 0 <= x < who.len() implies {
        let j = #[trigger] who[x];
        &&& 0 <= j < i + 1
        &&& t.own[j].effective()
        &&& actor(next.acts[x]) == Some(t.own[j].id)
        &&& leads_on(next.acts[x])
        &&& t.own[j].acted ==> next.acts[x] == Act::Hold { unit_id: t.own[j].id }
        &&& booked(next.acts[x]) matches Some(h) ==> {
            &&& next.reserved.contains(h)
            &&& match first_where(r.sent, sent_to(t.own[j].id)) {
                Some(k) => next.acts[x] == r.sent[k].1,
                None => !r.reserved.contains(h),
            }
        }
    } by {
        if x < before.len() {
            assert(who[x] == before[x]);
            assert(next.acts[x] == p.acts[x]);
            if let Some(h) = booked(p.acts[x]) {
                lemma_claimed_stays(p.reserved, a, h);
            }
        } else {
            if let Some(h) = booked(a) {
                lemma_claimed_stays(p.reserved, a, h);
            }
        }
    }
    assert forall|x: int, y: int| 0 <= x < y < who.len() implies (#[trigger] who[x]) < (
    #[trigger] who[y]) by {
        assert(who[x] == before[x]);
        if y < before.len() {
            assert(who[y] == before[y]);
        }
    }
    assert forall|x: int, y: int|
        (ids_differ(t.own) || r.sent.len() == 0) && 0 <= x < y < next.acts.len() && booked(
            #[trigger] next.acts[x],
        ) is Some implies booked(next.acts[x]) != booked(#[trigger] next.acts[y]) by {
        assert(next.acts[x] == p.acts[x]);
        if y < p.acts.len() {
            assert(next.acts[y] == p.acts[y]);
        } else if booked(p.acts[x]) == booked(a) {
            let h = booked(a)->0;
            let j = before[x];
            assert(p.reserved.contains(h));
            law_first_where(r.sent, sent_to(t.own[i].id));
            law_first_where(r.sent, sent_to(t.own[j].id));
            let k = first_where(r.sent, sent_to(t.own[i].id))->0;
            assert(a == r.sent[k].1 && r.sent[k].0 == t.own[i].id);
            assert(r.reserved.contains(h));
            let l = first_where(r.sent, sent_to(t.own[j].id))->0;
            assert(p.acts[x] == r.sent[l].1 && r.sent[l].0 == t.own[j].id);
            assert(k != l);
            if k < l {
                assert(booked(r.sent[k].1) != booked(r.sent[l].1));
            } else {
                assert(booked(r.sent[l].1) != booked(r.sent[k].1));
            }
        }
    }
}

/// A side's plan holds one command for each of its battalions that fight, in
/// their order and for no other battalion, and then the end of the turn. One that
/// has acted holds, and no march is empty. No two commands send battalions to one
/// hex, unless two battalions of the defender share an id: an order to a flag is
/// for both of them.
pub proof fn law_turn_plan(t: TurnView, b: &Book) -> (who: Seq<int>)
    requires
        b.valid(),
    ensures
        turn_plan(t, b) matches Ok(s) ==> {
            &&& s.len() == count_where(t.own, fighting()) + 1
            &&& s.last() == Act::EndTurn
            &&& who.len() == s.len() - 1
            &&& forall|x: int|
                0 <= x < who.len() ==> {
                    &&& 0 <= (#[trigger] who[x]) < t.own.len()
                    &&& t.own[who[x]].effective()
                    &&& actor(s[x]) == Some(t.own[who[x]].id)
                    &&& leads_on(s[x])
                    &&& t.own[who[x]].acted ==> s[x] == Act::Hold { unit_id: t.own[who[x]].id }
                }
            &&& forall|x: int, y: int| 0 <= x < y < who.len() ==> (#[trigger] who[x]) < (#[trigger] who[y])
            &&& ids_differ(t.own) || t.side != Side::Defender ==> books_differ(s)
        },
{
    lemma_flag_defense_ok(t, b);
    match flag_defense(t, b) {
        Err(_) => Seq::empty(),
        Ok(r) => {
            let n = t.own.len();
            let who = lemma_commands_ok(t, b, r, turn_rearguard(t), false, n);
            assert(t.own.take(n as int) =~= t.own);
            if let Ok(p) = commands_upto(t, b, r.sent, turn_rearguard(t), false, r.reserved, n) {
                let s = p.acts.push(Act::EndTurn);
                assert forall|x: int| 0 <= x < who.len() implies {
                    &&& 0 <= (#[trigger] who[x]) < t.own.len()
                    &&& t.own[who[x]].effective()
                    &&& actor(s[x]) == Some(t.own[who[x]].id)
                    &&& leads_on(s[x])
                    &&& t.own[who[x]].acted ==> s[x] == Act::Hold { unit_id: t.own[who[x]].id }
                } by {
                    assert(s[x] == p.acts[x]);
                }
                assert forall|x: int, y: int|
                    (ids_differ(t.own) || t.side != Side::Defender) && 0 <= x < y < s.len() && booked(
                        #[trigger] s[x],
                    ) is Some implies booked(s[x]) != booked(#[trigger] s[y]) by {
                    assert(s[x] == p.acts[x]);
                    if y < p.acts.len() {
                        assert(s[y] == p.acts[y]);
                    }
                }
            }
            who
        },
    }
}

/// A division's plan holds one command for each of its battalions that fight and
/// are not under the player's own command, in their order and for no other
/// battalion, and never the end of the turn. One that has acted holds, no march is
/// empty, and no two commands send battalions to one hex.
pub proof fn law_division_plan(t: TurnView, b: &Book) -> (who: Seq<int>)
    requires
        b.valid(),
    ensures
        division_plan(t, b) matches Ok(s) ==> {
            &&& s.len() == count_where(t.own, at_hand())
            &&& who.len() == s.len()
            &&& forall|x: int|
                0 <= x < who.len() ==> {
                    &&& 0 <= (#[trigger] who[x]) < t.own.len()
                    &&& t.own[who[x]].effective() && !t.own[who[x]].manual_override
                    &&& actor(s[x]) == Some(t.own[who[x]].id)
                    &&& leads_on(s[x])
                    &&& t.own[who[x]].acted ==> s[x] == Act::Hold { unit_id: t.own[who[x]].id }
                }
            &&& forall|x: int, y: int| 0 <= x < y < who.len() ==> (#[trigger] who[x]) < (#[trigger] who[y])
            &&& books_differ(s)
        },
{
    let r = ResponseView { pool: Seq::empty(), reserved: Seq::empty(), sent: Seq::empty() };
    assert(t.own.take(t.own.len() as int) =~= t.own);
    lemma_commands_ok(t, b, r, None, true, t.own.len())
}

/// The player's own command shields a battalion, whether it has acted or not: no
/// command of a division's plan is for it.
pub proof fn law_the_players_own_are_never_commanded(t: TurnView, b: &Book, i: int, x: int)
    requires
        b.valid(),
        t.own.len() <= usize::MAX,
        0 <= i < t.own.len(),
        t.own[i].manual_override,
        forall|j: int| 0 <= j < t.own.len() && j != i ==> (#[trigger] t.own[j]).id != t.own[i].id,
    ensures
        division_plan(t, b) matches Ok(s) ==> (0 <= x < s.len() ==> s[x] != Act::EndTurn && actor(s[x]) != Some(
            t.own[i].id,
        )),
{
    let who = law_division_plan(t, b);
    if let Ok(s) = division_plan(t, b) {
        if 0 <= x < s.len() {
            assert(actor(s[x]) == Some(t.own[who[x]].id));
        }
    }
}

/// Battalions that are not to be commanded never are: no command of a plan is
/// for one of them.
pub proof fn law_passive_battalions_are_never_commanded(t: TurnView, b: &Book, k: int, x: int)
    requires
        b.valid(),
        t.own.len() <= usize::MAX,
        0 <= k < t.passive.len(),
        forall|i: int| 0 <= i < t.own.len() ==> (#[trigger] t.own[i]).id != t.passive[k].id,
    ensures
        turn_plan(t, b) matches Ok(s) ==> (0 <= x < s.len() ==> actor(s[x]) != Some(t.passive[k].id)),
{
    let who = law_turn_plan(t, b);
    if let Ok(s) = turn_plan(t, b) {
        if 0 <= x < s.len() - 1 {
            assert(actor(s[x]) == Some(t.own[who[x]].id));
        }
    }
}

/// The enemy stands next to battalion `u`, in sight or not.
pub open spec fn adjacent_foe(t: TurnView, u: BattalionUnit, id: usize) -> bool {
    exists|e: BattalionUnit|
        (#[trigger] t.enemy.contains(e) || t.physical_foes.contains(e)) && e.id == id && hex_distance(
            u.position,
            e.position,
        ) == 1
}

proof fn lemma_prey_is_adjacent(t: TurnView, b: &Book, who: int, n: nat)
    requires
        n <= t.enemy.len(),
    ensures
        prey_upto(t, b, who, n) matches Ok(s) ==> forall|k: int|
            0 <= k < s.len() ==> t.enemy.contains(#[trigger] s[k]) && hex_distance(
                t.own[who].position,
                s[k].position,
            ) == 1,
    decreases n,
{
    if n > 0 {
        lemma_prey_is_adjacent(t, b, who, (n - 1) as nat);
        if let Ok(rest) = prey_upto(t, b, who, (n - 1) as nat) {
            if let Ok(s) = prey_upto(t, b, who, n) {
                assert forall|k: int| 0 <= k < s.len() implies t.enemy.contains(#[trigger] s[k])
                    && hex_distance(t.own[who].position, s[k].position) == 1 by {
                    if k < rest.len() {
                        assert(s[k] == rest[k]);
                    } else {
                        assert(s[k] == t.enemy[n - 1]);
                    }
                }
            }
        }
    }
}

/// A battalion assaults only an enemy that stands next to it, and only if it
/// can assault.
pub proof fn law_assaults_are_on_adjacent_enemies(t: TurnView, b: &Book, who: int)
    ensures
        assault(t, b, who) matches Ok(Some(a)) ==> {
            &&& t.own[who].can_assault
            &&& a matches Act::Assault { attacker_id, target_id }
            &&& attacker_id == t.own[who].id
            &&& adjacent_foe(t, t.own[who], target_id)
        },
{
    let u = t.own[who];
    if quarry(t) is Some {
        if let Some(crate::turn::DivOrderTarget::Engage { unit, last_pos: _ }) = t.order {
            law_first_where(t.enemy, |e: BattalionUnit| e.id == unit);
            let e = quarry(t)->0;
            assert(t.enemy.contains(e));
        }
    }
    lemma_prey_is_adjacent(t, b, who, t.enemy.len());
    law_those_where(t.physical_foes, blind_prey(t, u));
    if let Ok(prey) = all_prey(t, b, who) {
        let seen = prey_upto(t, b, who, t.enemy.len())->Ok_0;
        let blind = those_where(t.physical_foes, blind_prey(t, u));
        assert forall|k: int| 0 <= k < prey.len() implies (t.enemy.contains(#[trigger] prey[k])
            || t.physical_foes.contains(prey[k])) && hex_distance(u.position, prey[k].position) == 1 by {
            if k < seen.len() {
                assert(prey[k] == seen[k]);
            } else {
                assert(prey[k] == blind[k - seen.len()]);
                assert(blind.contains(prey[k]));
            }
        }
        if let Ok(Some(e)) = chosen_prey(t, b, who, prey) {
            if let Some(crate::turn::DivOrderTarget::Seize { hex }) = t.order {
                law_first_where(prey, by_hex(hex));
            }
            law_least(target_keys(t, prey));
            if let Some(i) = least(target_keys(t, prey)) {
                let tied = those_where(prey, as_good_as(t, target_key(t, prey[i])));
                law_those_where(prey, as_good_as(t, target_key(t, prey[i])));
                if tied.contains(e) {
                    assert(prey.contains(e));
                }
            }
            assert(prey.contains(e));
            let k = choose|k: int| 0 <= k < prey.len() && prey[k] == e;
            assert(t.enemy.contains(prey[k]) || t.physical_foes.contains(prey[k]));
            if t.enemy.contains(e) {
                assert(adjacent_foe(t, u, e.id));
            } else {
                assert(t.enemy.contains(e) || t.physical_foes.contains(e));
                assert(adjacent_foe(t, u, e.id));
            }
        }
    }
}

/// An enemy in rout is free damage: next to a battalion whose card may strike it,
/// it is prey whatever the odds and the trade.
pub proof fn law_routs_are_struck_whatever_the_odds(t: TurnView, b: &Book, who: int, foe: int)
    requires
        0 <= foe < t.enemy.len(),
        in_rout(t.enemy[foe]),
        permitted(t, t.enemy[foe]),
        hex_distance(t.own[who].position, t.enemy[foe].position) == 1,
    ensures
        is_prey(t, b, who, foe) == Ok::<bool, Query>(true),
{
}

/// The assault of an enemy is worth its trade, or the trade does not matter.
pub open spec fn worth_striking(t: TurnView, b: &Book, who: int, e: BattalionUnit) -> bool {
    whatever_the_trade(t, t.own[who], e) || exists|foe: int|
        0 <= foe < t.enemy.len() && #[trigger] t.enemy[foe] == e && truth(
            b,
            Query::Trade { who: who as usize, foe: foe as usize },
        ) == Ok::<bool, Query>(true)
}

/// An enemy is out of sight and stormed, or it is one that the card allows to be
/// struck: in rout, stormed, or struck at odds better than three to one against
/// and for a trade that is worth it.
pub open spec fn fair_game(t: TurnView, b: &Book, who: int, e: BattalionUnit) -> bool {
    ||| !in_sight(t, e) && stormed(t, e)
    ||| permitted(t, e) && (in_rout(e) || stormed(t, e) || (odds_acceptable(t, t.own[who], e.position)
        && worth_striking(t, b, who, e)))
}

proof fn lemma_prey_is_fair_game(t: TurnView, b: &Book, who: int, n: nat)
    requires
        n <= t.enemy.len(),
        t.order is None,
    ensures
        prey_upto(t, b, who, n) matches Ok(s) ==> forall|k: int|
            0 <= k < s.len() ==> fair_game(t, b, who, #[trigger] s[k]),
    decreases n,
{
    if n > 0 {
        lemma_prey_is_fair_game(t, b, who, (n - 1) as nat);
        if let Ok(rest) = prey_upto(t, b, who, (n - 1) as nat) {
            if let Ok(s) = prey_upto(t, b, who, n) {
                assert forall|k: int| 0 <= k < s.len() implies fair_game(t, b, who, #[trigger] s[k]) by {
                    if k < rest.len() {
                        assert(s[k] == rest[k]);
                    } else {
                        assert(s[k] == t.enemy[n - 1]);
                        assert(is_prey(t, b, who, n - 1) == Ok::<bool, Query>(true));
                    }
                }
            }
        }
    }
}

/// Without an order bad odds and bad trades are refused: a battalion assaults
/// only an enemy out of sight that is stormed, or one that its card allows it to
/// strike and that is in rout, is stormed, or is struck at odds better than three
/// to one against and for a trade that is worth it.
pub proof fn law_bad_odds_are_refused(t: TurnView, b: &Book, who: int) -> (e: BattalionUnit)
    requires
        t.order is None,
    ensures
        assault(t, b, who) matches Ok(Some(a)) ==> {
            &&& a matches Act::Assault { attacker_id, target_id }
            &&& target_id == e.id
            &&& t.enemy.contains(e) || t.physical_foes.contains(e)
            &&& fair_game(t, b, who, e)
        },
{
    let u = t.own[who];
    lemma_prey_is_adjacent(t, b, who, t.enemy.len());
    lemma_prey_is_fair_game(t, b, who, t.enemy.len());
    law_those_where(t.physical_foes, blind_prey(t, u));
    if let Ok(prey) = all_prey(t, b, who) {
        let seen = prey_upto(t, b, who, t.enemy.len())->Ok_0;
        let blind = those_where(t.physical_foes, blind_prey(t, u));
        assert forall|k: int| 0 <= k < prey.len() implies (t.enemy.contains(#[trigger] prey[k])
            || t.physical_foes.contains(prey[k])) && fair_game(t, b, who, prey[k]) by {
            if k < seen.len() {
                assert(prey[k] == seen[k]);
            } else {
                assert(prey[k] == blind[k - seen.len()]);
                assert(blind.contains(prey[k]));
            }
        }
        if let Ok(Some(e)) = chosen_prey(t, b, who, prey) {
            law_least(target_keys(t, prey));
            let i = least(target_keys(t, prey))->0;
            law_those_where(prey, as_good_as(t, target_key(t, prey[i])));
            let tied = those_where(prey, as_good_as(t, target_key(t, prey[i])));
            assert(tied.contains(e));
            assert(prey.contains(e));
            let k = choose|k: int| 0 <= k < prey.len() && prey[k] == e;
            assert(fair_game(t, b, who, prey[k]));
            e
        } else {
            u
        }
    } else {
        u
    }
}

/// A march with a standoff never comes nearer than that to an enemy that looms
/// ahead.
pub proof fn law_march_keeps_its_standoff(
    t: TurnView,
    b: &Book,
    who: int,
    reserved: Seq<HexCoord>,
    goal: Option<HexCoord>,
    standoff: i64,
    k: int,
)
    ensures
        approach(t, b, who, reserved, goal, Some(standoff)) matches Ok(Some(Act::MoveUnit { unit_id, path })) ==> {
            0 <= k < path.len() ==> enemy_distance(looming(t), path[k]) >= standoff
        },
{
    if let Some(g) = goal {
        if let Ok(Some(p)) = marching_path(t, b, who, reserved, g) {
            let cut = cut_short(looming(t), p, Some(standoff));
            let ok = too_near(looming(t), standoff);
            law_first_where(p, ok);
            lemma_unclaimed(cut, reserved);
            let path = unclaimed(cut, reserved);
            if 0 <= k < path.len() {
                assert(path[k] == cut[k]);
                assert(cut[k] == p[k]);
                assert(!ok(p[k]));
            }
        }
    }
}

/// Where a step is taken under a rule, the rule allows it, the hex is a
/// passable neighbour, and nobody else holds or has claimed it.
pub proof fn law_steps_keep_their_rule(t: TurnView, b: &Book, who: int, reserved: Seq<HexCoord>, rule: StepRule)
    requires
        crate::grid::full_compass(t.grid.order()),
    ensures
        best_step(t, b, who, reserved, rule) matches Ok(Some(h)) ==> {
            &&& judged(t, rule, h) is Some
            &&& hex_distance(t.own[who].position, h) == 1
            &&& t.grid.open_ground(h)
            &&& !held_by_other(t.all, t.own[who].id, h)
            &&& !reserved.contains(h)
        },
{
    let exits = t.grid.exits(t.own[who].position);
    let f = step_key(t, b, who, reserved, rule);
    lemma_gathered_len(exits, f);
    if let Ok(keys) = gathered(exits, f) {
        law_least(keys);
        if let Some(i) = least(keys) {
            assert(f(exits[i]) == Ok::<Option<Key>, Query>(keys[i]));
            assert(exits.contains(exits[i]));
            crate::grid::law_exits_are_the_passable_neighbours(
                t.grid,
                t.own[who].position,
                exits[i],
            );
        }
    }
}

/// A fall-back gains distance from the enemy and never ends in a ford.
pub proof fn law_falling_back_gains_distance(t: TurnView, b: &Book, who: int, reserved: Seq<HexCoord>)
    requires
        crate::grid::full_compass(t.grid.order()),
    ensures
        back_step(t, b, who, reserved) matches Ok(Some(a)) ==> {
            &&& a matches Act::MoveUnit { unit_id, path }
            &&& path.len() == 1
            &&& enemy_distance(t.enemy, path[0]) > enemy_distance(t.enemy, t.own[who].position)
            &&& !t.grid.river_at(path[0])
        },
{
    let u = t.own[who];
    let now = enemy_distance(t.enemy, u.position) as i64;
    law_steps_keep_their_rule(t, b, who, reserved, StepRule::FallBack { now });
    lemma_distance_is_bounded(t.enemy, u.position);
}

proof fn lemma_distance_is_bounded(units: Seq<BattalionUnit>, h: HexCoord)
    ensures
        0 <= enemy_distance(units, h) <= crate::turn::FAR,
    decreases units.len(),
{
    if units.len() > 0 {
        lemma_distance_is_bounded(units.drop_last(), h);
    }
}

/// The hex is in the firing envelope of the battalion.
pub open spec fn in_range(u: BattalionUnit, h: HexCoord) -> bool {
    u.min_attack_range <= hex_distance(u.position, h) <= u.attack_range
}

proof fn lemma_reach(t: TurnView, who: int, foes: Seq<usize>, k: int)
    requires
        0 <= k < foes.len(),
        forall|j: usize| #[trigger] foes.contains(j) ==> reach_of(t, who).contains(j),
    ensures
        foes[k] < t.enemy.len() || t.enemy.len() > usize::MAX,
        in_range(t.own[who], t.enemy[foes[k] as int].position),
{
    let all = indices(t.enemy.len());
    law_those_where(all, in_reach(t, who));
    assert(foes.contains(foes[k]));
    assert(reach_of(t, who).contains(foes[k]));
    assert(all.contains(foes[k]));
    let j = choose|j: int| 0 <= j < all.len() && all[j] == foes[k];
}

proof fn lemma_weakest_in_range(t: TurnView, who: int, foes: Seq<usize>)
    requires
        forall|j: usize| #[trigger] foes.contains(j) ==> reach_of(t, who).contains(j),
    ensures
        weakest(t, foes) matches Some(h) ==> in_range(t.own[who], h) && exists|k: int|
            0 <= k < foes.len() && h == t.enemy[(#[trigger] foes[k]) as int].position,
{
    law_least(weakness_keys(t, foes));
    if let Some(i) = least(weakness_keys(t, foes)) {
        lemma_reach(t, who, foes, i);
        assert(t.enemy[foes[i] as int].position == t.enemy[foes[i] as int].position);
    }
}

proof fn lemma_even_are_foes(b: &Book, who: int, foes: Seq<usize>, keys: Seq<Key>, order: Seq<usize>, n: nat)
    requires
        n <= order.len(),
        order.len() == foes.len(),
        forall|k: int| 0 <= k < order.len() ==> (#[trigger] order[k]) < foes.len(),
    ensures
        even_upto(b, who, foes, keys, order, n) matches Ok(tied) ==> forall|k: int|
            0 <= k < tied.len() ==> foes.contains(#[trigger] tied[k]),
    decreases n,
{
    if n > 0 {
        lemma_even_are_foes(b, who, foes, keys, order, (n - 1) as nat);
        if let Ok(rest) = even_upto(b, who, foes, keys, order, (n - 1) as nat) {
            if let Ok(tied) = even_upto(b, who, foes, keys, order, n) {
                assert forall|k: int| 0 <= k < tied.len() implies foes.contains(#[trigger] tied[k]) by {
                    if k < rest.len() {
                        assert(tied[k] == rest[k]);
                    } else {
                        assert(tied[k] == foes[order[n - 1] as int]);
                    }
                }
            }
        }
    }
}

/// A battery fires only into its envelope, and a launcher never at a hex whose
/// blast would strike friends.
pub proof fn law_fire_is_in_range_and_safe(t: TurnView, b: &Book, who: int)
    requires
        t.enemy.len() <= usize::MAX,
    ensures
        fire_target(t, b, who) matches Ok(Some(h)) ==> in_range(t.own[who], h) && safe_for(t, who, h),
{
    let reach = reach_of(t, who);
    law_those_where(indices(t.enemy.len()), in_reach(t, who));
    law_those_where(reach, safe_target(t, who));
    let safe = those_where(reach, safe_target(t, who));
    if let Some(h) = ordered_target(t, who, reach) {
        match t.order {
            Some(crate::turn::DivOrderTarget::Engage { unit, last_pos: _ }) => {
                law_first_where(reach, with_id(t, unit));
                if let Some(i) = first_where(reach, with_id(t, unit)) {
                    lemma_reach(t, who, reach, i);
                }
            },
            Some(crate::turn::DivOrderTarget::Seize { hex }) => {
                law_those_where(reach, by_point(t, hex));
                lemma_weakest_in_range(t, who, those_where(reach, by_point(t, hex)));
            },
            None => {},
        }
    } else if let Ok(Some(h)) = fire_target(t, b, who) {
        lemma_prepared(t, b, who, safe);
        lemma_mission(t, b, who, safe);
        let k = choose|k: int|
            0 <= k < safe.len() && h == t.enemy[(#[trigger] safe[k]) as int].position;
        lemma_reach(t, who, safe, k);
        assert(safe.contains(safe[k]));
    }
}

/// The hex is that of one of the targets.
spec fn at_one_of(t: TurnView, foes: Seq<usize>, h: HexCoord) -> bool {
    exists|k: int| 0 <= k < foes.len() && h == t.enemy[(#[trigger] foes[k]) as int].position
}

proof fn lemma_prepared(t: TurnView, b: &Book, who: int, foes: Seq<usize>)
    requires
        forall|j: usize| #[trigger] foes.contains(j) ==> reach_of(t, who).contains(j),
    ensures
        prepared_target(t, b, foes) matches Ok(Some(h)) ==> at_one_of(t, foes, h),
{
    law_those_where(foes, precise_target(t));
    let targets = preparation(t, foes);
    assert forall|j: usize| #[trigger] targets.contains(j) implies foes.contains(j) by {}
    lemma_weakest_in_range(t, who, targets);
    lemma_gathered_len(targets, volley_key(t, b));
    if let Ok(keys) = gathered(targets, volley_key(t, b)) {
        law_least(keys);
    }
    if let Ok(Some(h)) = prepared_target(t, b, foes) {
        let k = choose|k: int|
            0 <= k < targets.len() && h == t.enemy[(#[trigger] targets[k]) as int].position;
        assert(at_one_of(t, targets, h)) by {
            if crate::barrage::prepares_assault(t.tactic) {
                let keys = gathered(targets, volley_key(t, b))->Ok_0;
                if let Some(i) = least(keys) {
                    assert(t.enemy[targets[i] as int].position == t.enemy[targets[i] as int].position);
                }
            }
        }
        let m = choose|m: int|
            0 <= m < targets.len() && h == t.enemy[(#[trigger] targets[m]) as int].position;
        assert(targets.contains(targets[m]));
        let n = choose|n: int| 0 <= n < foes.len() && foes[n] == targets[m];
        assert(h == t.enemy[foes[n] as int].position);
    }
}

proof fn lemma_mission(t: TurnView, b: &Book, who: int, foes: Seq<usize>)
    requires
        foes.len() <= usize::MAX,
    ensures
        best_mission(t, b, who, foes) matches Ok(Some(h)) ==> at_one_of(t, foes, h),
{
    lemma_gathered_len(foes, barrage_key(t, b, who));
    if let Ok(keys) = gathered(foes, barrage_key(t, b, who)) {
        law_ranking(plain(keys));
        lemma_even_are_foes(b, who, foes, plain(keys), ranked(plain(keys)), foes.len());
        if let Ok(tied) = even_upto(b, who, foes, plain(keys), ranked(plain(keys)), foes.len()) {
            if let Ok(n) = number(b, Query::Draw { who: who as usize, below: tied.len() as usize }) {
                if 0 <= n < tied.len() {
                    assert(foes.contains(tied[n as int]));
                    let k = choose|k: int| 0 <= k < foes.len() && foes[k] == tied[n as int];
                    assert(t.enemy[tied[n as int] as int].position == t.enemy[foes[k] as int].position);
                }
            }
        }
    }
}

/// Preparatory fire converges: under a fire plan or an assault card, and without
/// an order, two batteries that can fire at the same targets fire at the same
/// hex.
pub proof fn law_preparation_converges(t: TurnView, b: &Book, x: int, y: int)
    requires
        t.order is None,
        prepares_assault(t.tactic) || t.tactic == CombatTactic::OverwhelmingFire,
        those_where(reach_of(t, x), safe_target(t, x)) == those_where(reach_of(t, y), safe_target(t, y)),
    ensures
        fire_target(t, b, x) == fire_target(t, b, y),
{
}

/// The command is to attack.
pub open spec fn attacks(a: Act) -> bool {
    a is Assault || a is FireSupport
}

/// A headquarters never attacks, and neither does a damaged battalion.
pub proof fn law_headquarters_and_reserves_never_attack(t: TurnView, b: &Book, who: int, reserved: Seq<HexCoord>)
    ensures
        hq_duty(t, b, who, reserved) matches Ok(a) ==> !attacks(a),
        reserve_duty(t, b, who, reserved) matches Ok(a) ==> !attacks(a),
{
    let u = t.own[who];
    if let Ok(Some(anchor)) = crate::duty::division_anchor(t, b, who) {
        lemma_posts_march(t, b, who, reserved, ranked_posts(t, u, anchor), 0);
    }
}

proof fn lemma_posts_march(t: TurnView, b: &Book, who: int, reserved: Seq<HexCoord>, posts: Seq<HexCoord>, k: nat)
    ensures
        to_a_post(t, b, who, reserved, posts, k) matches Ok(Some(a)) ==> a is MoveUnit,
    decreases posts.len() - k,
{
    if k < posts.len() {
        lemma_posts_march(t, b, who, reserved, posts, k + 1);
    }
}

/// Ambushers, a river line and a garrison never leave their ground: a line
/// battalion of theirs holds or strikes. So does one in the zone of a flag that
/// it guards.
pub proof fn law_some_lines_never_move(t: TurnView, b: &Book, who: int, reserved: Seq<HexCoord>)
    requires
        t.tactic == CombatTactic::Ambush || t.tactic == CombatTactic::RiverDefense || t.tactic
            == CombatTactic::UrbanDefense || guards_flag(t, t.own[who]),
    ensures
        hold_duty(t, b, who, reserved) matches Ok(a) ==> a is Hold || a is Assault,
{
}

/// A garrison outside its city holds, whatever comes.
pub proof fn law_garrisons_stay_in_the_city(t: TurnView, b: &Book, who: int, reserved: Seq<HexCoord>)
    requires
        t.tactic == CombatTactic::UrbanDefense,
        !guards_flag(t, t.own[who]),
        !t.grid.urban_at(t.own[who].position),
    ensures
        hold_duty(t, b, who, reserved) == Ok::<Act, Query>(Act::Hold { unit_id: t.own[who].id }),
{
}

/// A withdrawal, a barrage and a delay never assault an enemy in sight, unless
/// a division is under orders.
pub proof fn law_some_cards_never_assault(t: TurnView, b: &Book, who: int)
    requires
        t.tactic == CombatTactic::TacticalWithdrawal || t.tactic == CombatTactic::OverwhelmingFire || t.tactic
            == CombatTactic::Delay,
        t.order is None,
        t.physical_foes.len() == 0,
    ensures
        assault(t, b, who) == Ok::<Option<Act>, Query>(None),
{
    lemma_no_prey(t, b, who, t.enemy.len());
    let prey = all_prey(t, b, who)->Ok_0;
    assert(those_where(t.physical_foes, blind_prey(t, t.own[who])) =~= Seq::<BattalionUnit>::empty());
    assert(prey =~= Seq::<BattalionUnit>::empty());
    assert(target_keys(t, prey) =~= Seq::<Option<Key>>::empty());
}

proof fn lemma_no_prey(t: TurnView, b: &Book, who: int, n: nat)
    requires
        t.tactic == CombatTactic::TacticalWithdrawal || t.tactic == CombatTactic::OverwhelmingFire || t.tactic
            == CombatTactic::Delay,
        t.order is None,
    ensures
        prey_upto(t, b, who, n) == Ok::<Seq<BattalionUnit>, Query>(Seq::empty()),
    decreases n,
{
    if n > 0 {
        lemma_no_prey(t, b, who, (n - 1) as nat);
    }
}

/// Raiders never march into contact with an enemy that they know of.
pub proof fn law_raiders_stay_out_of_contact(t: TurnView, b: &Book, who: int, reserved: Seq<HexCoord>)
    requires
        crate::grid::full_compass(t.grid.order()),
        t.physical_foes.len() == 0,
    ensures
        raid_duty(t, b, who, reserved) matches Ok(Act::MoveUnit { unit_id, path }) ==> path.len() > 0
            && enemy_distance(t.enemy, path.last()) >= 2,
{
    let u = t.own[who];
    law_steps_keep_their_rule(t, b, who, reserved, StepRule::Evade);
    let goal = match crate::turn::isolated_enemy_hex(t.enemy, u.position) {
        Some(h) => Some(h),
        None => crate::goal::blind_goal(t, u.position),
    };
    if let Ok(Some(Act::MoveUnit { unit_id, path })) = approach(t, b, who, reserved, goal, Some(2)) {
        law_march_keeps_its_standoff(t, b, who, reserved, goal, 2, path.len() - 1);
    }
}

} // verus!
