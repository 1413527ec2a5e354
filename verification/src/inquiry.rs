//! What the planner asks: only what it has not been told.
use vstd::prelude::*;
use crate::action::Act;
use crate::assault::{
    all_prey, as_good_as, assault, chosen_prey, blind_prey, prey_upto, target_key, target_keys,
};
use crate::barrage::{
    barrage_key, best_mission, even_upto, fire_target, in_reach, plain, prepared_target, preparation, reach_of, safe_target,
    volley_key,
};
use crate::duty::{
    advance_duty, anchor_keys, assault_duty, attached_duty, centre_key, counter_duty, creeping_duty, division_anchor, duty,
    elastic_duty, flank_duty, flank_goal, follow_division, gun_duty, hold_duty, hq_duty, limbered_duty, line_duty,
    march_goal, mission, probe_duty, raid_duty, ranked_posts, shoulder_duty, support_duty, to_a_post,
};
use crate::goal::{blind_goal, order_goal};
use crate::hex::{disc, HexCoord};
use crate::march::{
    advance_step, approach, back_step, cover_step, cheapest, fresh_path, marching_path, route_key, screen, screen_key, step_key, step_order,
    StepRule, ARTILLERY_MIN_STANDOFF,
};
use crate::pick::{indices, least, ranked, those_where, Key};
use crate::planner::{
    command, commands_upto, division_plan, flag_defense, flag_order, flag_pool, pool_keys, respond, respond_upto, send,
    send_one, share_of, threatened, total_progress, turn_plan, turn_rearguard, ResponseView,
};
use crate::role::{role_of, UnitRole};
use crate::turn::{
    enemy_distance, gathered, isolated_enemy_hex, nearest_enemy_hex, number, pair, place, route_at, truth, Book, Query,
    TurnView,
};

verus! {

/// The book has no fitting answer to the query.
pub open spec fn unanswered(b: &Book, q: Query) -> bool {
    match q {
        Query::Route { who, dest } => route_at(b, who as int, dest) is Err,
        Query::Step { who: _, hex: _, score: _, distance: _, beyond: _ } => pair(b, q) is Err,
        Query::Trade { who: _, foe: _ } => truth(b, q) is Err,
        Query::Even { who: _, foe: _, best: _, full: _ } => truth(b, q) is Err,
        Query::Shielded { from: _, threat: _ } => truth(b, q) is Err,
        Query::Volley { foe: _ } => number(b, q) is Err,
        Query::Barrage { who: _, foe: _, full: _ } => number(b, q) is Err,
        Query::Share { pool: _, progress: _, total: _ } => number(b, q) is Err,
        Query::OffCentre { hq: _, member: _ } => number(b, q) is Err,
        Query::Draw { who: _, below } => !(number(b, q) matches Ok(n) && 0 <= n < below),
        Query::Waypoint { left: _ } => place(b, q) is Err,
        Query::NearestHex { flag: _, who: _ } => place(b, q) is Err,
    }
}

/// What is asked, if anything, has no answer in the book.
pub open spec fn apt<A>(b: &Book, r: Result<A, Query>) -> bool {
    r matches Err(q) ==> unanswered(b, q)
}

/// The forces are no larger than a list can be.
pub open spec fn countable(t: TurnView) -> bool {
    &&& t.own.len() <= usize::MAX
    &&& t.enemy.len() + t.physical_foes.len() <= usize::MAX
}

proof fn lemma_gathered_apt<A>(b: &Book, s: Seq<A>, f: spec_fn(A) -> Result<Option<Key>, Query>)
    requires
        forall|a: A| apt(b, #[trigger] f(a)),
    ensures
        apt(b, gathered(s, f)),
    decreases s.len(),
{
    if s.len() > 0 {
        lemma_gathered_apt(b, s.drop_last(), f);
        assert(apt(b, f(s.last())));
    }
}

proof fn lemma_those_are_fewer<A>(s: Seq<A>, ok: spec_fn(A) -> bool)
    ensures
        those_where(s, ok).len() <= s.len(),
    decreases s.len(),
{
    if s.len() > 0 {
        lemma_those_are_fewer(s.drop_last(), ok);
    }
}

// ---- marches and steps ----

proof fn lemma_step_apt(t: TurnView, b: &Book, who: int, reserved: Seq<HexCoord>, rule: StepRule)
    ensures
        apt(b, step_order(t, b, who, reserved, rule)),
{
    let f = step_key(t, b, who, reserved, rule);
    assert forall|h: HexCoord| apt(b, #[trigger] f(h)) by {}
    lemma_gathered_apt(b, t.grid.exits(t.own[who].position), f);
}

proof fn lemma_cheapest_apt(t: TurnView, b: &Book, who: int, reserved: Seq<HexCoord>, goal: HexCoord, only_free: bool)
    requires
        0 <= who <= usize::MAX,
    ensures
        apt(b, cheapest(t, b, who, reserved, goal, only_free)),
{
    let f = route_key(t, b, who, reserved, only_free);
    assert forall|h: HexCoord| apt(b, #[trigger] f(h)) by {}
    lemma_gathered_apt(b, t.grid.around(goal), f);
}

proof fn lemma_approach_apt(
    t: TurnView,
    b: &Book,
    who: int,
    reserved: Seq<HexCoord>,
    goal: Option<HexCoord>,
    standoff: Option<i64>,
)
    requires
        0 <= who <= usize::MAX,
    ensures
        apt(b, approach(t, b, who, reserved, goal, standoff)),
{
    if let Some(h) = goal {
        lemma_cheapest_apt(t, b, who, reserved, h, false);
        lemma_cheapest_apt(t, b, who, reserved, h, true);
        assert(apt(b, fresh_path(t, b, who, reserved, h)));
        assert(apt(b, marching_path(t, b, who, reserved, h)));
    }
}

proof fn lemma_screen_apt(
    t: TurnView,
    b: &Book,
    who: int,
    reserved: Seq<HexCoord>,
    threat: Option<HexCoord>,
    standoff: u8,
)
    requires
        0 <= who <= usize::MAX,
    ensures
        apt(b, screen(t, b, who, reserved, threat, standoff)),
{
    if let Some(h) = threat {
        let f = screen_key(t, b, who, reserved, h, standoff as int);
        assert forall|x: HexCoord| apt(b, #[trigger] f(x)) by {}
        lemma_gathered_apt(b, disc(h, standoff as nat), f);
        lemma_approach_apt(t, b, who, reserved, threat, Some(standoff as i64));
    }
}

// ---- assaults ----

proof fn lemma_prey_apt(t: TurnView, b: &Book, who: int, n: nat)
    ensures
        apt(b, prey_upto(t, b, who, n)),
        prey_upto(t, b, who, n) matches Ok(prey) ==> prey.len() <= n,
    decreases n,
{
    if n > 0 {
        lemma_prey_apt(t, b, who, (n - 1) as nat);
    }
}

proof fn lemma_assault_apt(t: TurnView, b: &Book, who: int)
    requires
        countable(t),
    ensures
        apt(b, assault(t, b, who)),
{
    lemma_prey_apt(t, b, who, t.enemy.len());
    if let Ok(prey) = all_prey(t, b, who) {
        lemma_those_are_fewer(t.physical_foes, blind_prey(t, t.own[who]));
        if let Some(i) = least(target_keys(t, prey)) {
            lemma_those_are_fewer(prey, as_good_as(t, target_key(t, prey[i])));
        }
        assert(apt(b, chosen_prey(t, b, who, prey)));
    }
}

// ---- fire ----

proof fn lemma_prepared_apt(t: TurnView, b: &Book, foes: Seq<usize>)
    ensures
        apt(b, prepared_target(t, b, foes)),
{
    let f = volley_key(t, b);
    assert forall|j: usize| apt(b, #[trigger] f(j)) by {}
    lemma_gathered_apt(b, preparation(t, foes), f);
}

proof fn lemma_even_apt(b: &Book, who: int, foes: Seq<usize>, keys: Seq<Key>, order: Seq<usize>, n: nat)
    ensures
        apt(b, even_upto(b, who, foes, keys, order, n)),
        even_upto(b, who, foes, keys, order, n) matches Ok(tied) ==> tied.len() <= n,
    decreases n,
{
    if n > 0 {
        lemma_even_apt(b, who, foes, keys, order, (n - 1) as nat);
    }
}

proof fn lemma_mission_apt(t: TurnView, b: &Book, who: int, foes: Seq<usize>)
    requires
        foes.len() <= usize::MAX,
    ensures
        apt(b, best_mission(t, b, who, foes)),
{
    let f = barrage_key(t, b, who);
    assert forall|j: usize| apt(b, #[trigger] f(j)) by {}
    lemma_gathered_apt(b, foes, f);
    if let Ok(keys) = gathered(foes, f) {
        lemma_even_apt(b, who, foes, plain(keys), ranked(plain(keys)), foes.len());
    }
}

proof fn lemma_fire_apt(t: TurnView, b: &Book, who: int)
    requires
        countable(t),
    ensures
        apt(b, fire_target(t, b, who)),
{
    let reach = reach_of(t, who);
    let safe = those_where(reach, safe_target(t, who));
    lemma_those_are_fewer(indices(t.enemy.len()), in_reach(t, who));
    lemma_those_are_fewer(reach, safe_target(t, who));
    lemma_prepared_apt(t, b, safe);
    lemma_mission_apt(t, b, who, safe);
}

// ---- duties ----

proof fn lemma_posts_apt(t: TurnView, b: &Book, who: int, reserved: Seq<HexCoord>, posts: Seq<HexCoord>, k: nat)
    requires
        0 <= who <= usize::MAX,
    ensures
        apt(b, to_a_post(t, b, who, reserved, posts, k)),
    decreases posts.len() - k,
{
    if k < posts.len() {
        lemma_approach_apt(t, b, who, reserved, Some(posts[k as int]), Some(2));
        lemma_posts_apt(t, b, who, reserved, posts, k + 1);
    }
}

proof fn lemma_hq_apt(t: TurnView, b: &Book, who: int, reserved: Seq<HexCoord>)
    requires
        0 <= who <= usize::MAX,
    ensures
        apt(b, hq_duty(t, b, who, reserved)),
{
    let f = centre_key(t, b, who);
    assert forall|i: usize| apt(b, #[trigger] f(i)) by {}
    lemma_gathered_apt(b, indices(t.own.len()), f);
    let u = t.own[who];
    if let Ok(Some(anchor)) = division_anchor(t, b, who) {
        let now = enemy_distance(t.enemy, u.position);
        let rule = StepRule::Shadow { now: now as i64, anchor, leash: t.params.hq_aura_radius };
        lemma_step_apt(t, b, who, reserved, rule);
        lemma_approach_apt(t, b, who, reserved, u.move_to, Some(2));
        lemma_posts_apt(t, b, who, reserved, ranked_posts(t, u, anchor), 0);
        lemma_approach_apt(t, b, who, reserved, Some(anchor), Some(2));
        assert(apt(b, follow_division(t, b, who, reserved, anchor)));
    }
}

proof fn lemma_support_apt(t: TurnView, b: &Book, who: int, reserved: Seq<HexCoord>)
    requires
        countable(t),
        0 <= who <= usize::MAX,
    ensures
        apt(b, support_duty(t, b, who, reserved)),
{
    let u = t.own[who];
    let goal = march_goal(t, reserved, u);
    lemma_step_apt(t, b, who, reserved, StepRule::Displace);
    lemma_fire_apt(t, b, who);
    lemma_approach_apt(t, b, who, reserved, goal, Some(ARTILLERY_MIN_STANDOFF));
    lemma_approach_apt(t, b, who, reserved, goal, Some(u.attack_range));
    assert(apt(b, limbered_duty(t, b, who, reserved)));
    assert(apt(b, creeping_duty(t, b, who, reserved)));
    assert(apt(b, mission(t, b, who)));
    assert(apt(b, gun_duty(t, b, who, reserved)));
}

proof fn lemma_round_apt(t: TurnView, b: &Book, who: int, reserved: Seq<HexCoord>)
    requires
        countable(t),
        0 <= who <= usize::MAX,
    ensures
        apt(b, probe_duty(t, b, who, reserved)),
        apt(b, flank_duty(t, b, who, reserved)),
        apt(b, attached_duty(t, b, who, reserved)),
{
    let u = t.own[who];
    lemma_assault_apt(t, b, who);
    if let Ok(goal) = flank_goal(t, b, u) {
        lemma_approach_apt(t, b, who, reserved, goal, None);
    }
    if let Some(i) = least(anchor_keys(t, u)) {
        lemma_approach_apt(t, b, who, reserved, Some(t.own[i].position), None);
    }
}

proof fn lemma_advance_apt(t: TurnView, b: &Book, who: int, reserved: Seq<HexCoord>)
    requires
        countable(t),
        0 <= who <= usize::MAX,
    ensures
        apt(b, assault_duty(t, b, who, reserved)),
{
    let u = t.own[who];
    let prey = isolated_enemy_hex(t.enemy, u.position);
    lemma_assault_apt(t, b, who);
    lemma_step_apt(t, b, who, reserved, StepRule::Evade);
    lemma_approach_apt(t, b, who, reserved, prey, Some(2));
    lemma_approach_apt(t, b, who, reserved, blind_goal(t, u.position), Some(2));
    lemma_approach_apt(t, b, who, reserved, prey, None);
    lemma_approach_apt(t, b, who, reserved, march_goal(t, reserved, u), None);
    assert(apt(b, raid_duty(t, b, who, reserved)));
    assert(apt(b, advance_step(t, b, who, reserved))) by {
        assert forall|rule: StepRule| apt(b, #[trigger] step_order(t, b, who, reserved, rule)) by {
            lemma_step_apt(t, b, who, reserved, rule);
        }
    }
    assert(apt(b, advance_duty(t, b, who, reserved)));
}

proof fn lemma_hold_apt(t: TurnView, b: &Book, who: int, reserved: Seq<HexCoord>)
    requires
        countable(t),
        0 <= who <= usize::MAX,
    ensures
        apt(b, hold_duty(t, b, who, reserved)),
{
    let u = t.own[who];
    lemma_assault_apt(t, b, who);
    assert forall|rule: StepRule| apt(b, #[trigger] step_order(t, b, who, reserved, rule)) by {
        lemma_step_apt(t, b, who, reserved, rule);
    }
    assert(apt(b, back_step(t, b, who, reserved)));
    assert(apt(b, cover_step(t, b, who, reserved)));
    lemma_screen_apt(t, b, who, reserved, nearest_enemy_hex(t.enemy, u.position), 2);
    assert(apt(b, elastic_duty(t, b, who, reserved)));
    assert(apt(b, counter_duty(t, b, who, reserved)));
    let goal = match order_goal(t, reserved, u) {
        Some(h) => Some(h),
        None => blind_goal(t, u.position),
    };
    lemma_approach_apt(t, b, who, reserved, goal, None);
    assert(apt(b, shoulder_duty(t, b, who, reserved)));
    assert(apt(b, line_duty(t, b, who, reserved)));
}

proof fn lemma_duty_apt(t: TurnView, b: &Book, who: int, reserved: Seq<HexCoord>, role: UnitRole)
    requires
        countable(t),
        0 <= who <= usize::MAX,
    ensures
        apt(b, duty(t, b, who, reserved, role)),
{
    match role {
        UnitRole::Reserve => {
            let now = enemy_distance(t.enemy, t.own[who].position);
            lemma_step_apt(t, b, who, reserved, StepRule::Withdraw { now: now as i64 });
        },
        UnitRole::SupportFire => lemma_support_apt(t, b, who, reserved),
        UnitRole::Probe => lemma_round_apt(t, b, who, reserved),
        UnitRole::Attached => lemma_round_apt(t, b, who, reserved),
        UnitRole::Flank => lemma_round_apt(t, b, who, reserved),
        UnitRole::Rearguard => {},
        UnitRole::Headquarters => lemma_hq_apt(t, b, who, reserved),
        UnitRole::Assault => lemma_advance_apt(t, b, who, reserved),
        UnitRole::HoldPosition => lemma_hold_apt(t, b, who, reserved),
    }
}

// ---- whole plans ----

proof fn lemma_send_apt(t: TurnView, b: &Book, flag: int, r: ResponseView, n: nat)
    ensures
        apt(b, send(t, b, flag, r, n)),
    decreases n,
{
    if n > 0 {
        lemma_send_apt(t, b, flag, r, (n - 1) as nat);
        if let Ok(next) = send(t, b, flag, r, (n - 1) as nat) {
            if let Some(k) = least(pool_keys(t, next.pool, flag)) {
                let who = next.pool[k];
                let q = Query::NearestHex { flag: flag as usize, who };
                if let Ok(goal) = place(b, q) {
                    lemma_approach_apt(t, b, who as int, next.reserved, goal, None);
                }
                lemma_screen_apt(t, b, who as int, next.reserved, Some(t.flags[flag].anchor), 2);
                assert(apt(b, flag_order(t, b, who as int, next.reserved, flag)));
            }
            assert(apt(b, send_one(t, b, flag, next)));
        }
    }
}

proof fn lemma_respond_apt(t: TurnView, b: &Book, flags: Seq<usize>, total: int, r: ResponseView, n: nat)
    ensures
        apt(b, respond_upto(t, b, flags, total, r, n)),
    decreases n,
{
    if n > 0 {
        lemma_respond_apt(t, b, flags, total, r, (n - 1) as nat);
        if let Ok(next) = respond_upto(t, b, flags, total, r, (n - 1) as nat) {
            let flag = flags[n - 1] as int;
            let q = Query::Share {
                pool: next.pool.len() as usize,
                progress: t.flags[flag].progress,
                total: total as i128,
            };
            if let Ok(share) = number(b, q) {
                lemma_send_apt(t, b, flag, next, share_of(next.pool.len(), share));
            }
            assert(apt(b, respond(t, b, flag, total, next)));
        }
    }
}

proof fn lemma_commands_apt(
    t: TurnView,
    b: &Book,
    sent: Seq<(usize, Act)>,
    rearguard: Option<usize>,
    division: bool,
    reserved: Seq<HexCoord>,
    n: nat,
)
    requires
        countable(t),
        n <= t.own.len(),
    ensures
        apt(b, commands_upto(t, b, sent, rearguard, division, reserved, n)),
    decreases n,
{
    if n > 0 {
        lemma_commands_apt(t, b, sent, rearguard, division, reserved, (n - 1) as nat);
        if let Ok(p) = commands_upto(t, b, sent, rearguard, division, reserved, (n - 1) as nat) {
            let role = role_of(t.tactic, t.own[n - 1], rearguard);
            lemma_duty_apt(t, b, n - 1, p.reserved, role);
            assert(apt(b, command(t, b, sent, rearguard, division, p.reserved, n - 1)));
        }
    }
}

/// A plan fails only for want of an answer: whatever it asks, the book has no
/// fitting answer to it.
pub proof fn law_only_the_unknown_is_asked(t: TurnView, b: &Book)
    requires
        countable(t),
    ensures
        turn_plan(t, b) matches Err(q) ==> unanswered(b, q),
        division_plan(t, b) matches Err(q) ==> unanswered(b, q),
{
    let flags = threatened(t);
    let start = ResponseView {
        pool: flag_pool(t),
        reserved: Seq::empty(),
        sent: Seq::empty(),
    };
    lemma_respond_apt(t, b, flags, total_progress(t, flags), start, flags.len());
    if let Ok(r) = flag_defense(t, b) {
        lemma_commands_apt(t, b, r.sent, turn_rearguard(t), false, r.reserved, t.own.len());
    }
    lemma_commands_apt(t, b, Seq::empty(), None, true, Seq::empty(), t.own.len());
}

} // verus!
