//! What holds of every deployment.
use vstd::prelude::*;
use crate::deploy::{
    accepted_upto, all_in_city, armor_last_upto, best_site, city_hexes, command_anchor, deployed,
    garrison_candidate, garrison_cap, garrison_of, garrison_quota, garrison_upto, garrisoned,
    headed, hq_candidate, hqs_of, hqs_upto, in_division, in_same_division, line_candidate, line_order,
    line_search, line_upto, lined_up, observed, observers_of, observers_upto, only_moved, placeable,
    put, rows_of, sector_of, site_keys, support_candidate, support_site, support_slot,
    support_target, support_upto, supported, weakest_first, weakness_ranks, Asked, DeployBook,
    DeployView, Deployment, Search,
};
use crate::formation::{formation_of, Formation, Shape};
use crate::hex::HexCoord;
use crate::pick::{
    count_where, first_where, indices, law_first_where, law_least, law_ranking, law_those_where, least, ranked,
    those_where,
};
use crate::retreat::namesake;
use crate::settle::ids_differ;
use crate::unit::{BattalionUnit, Side};

verus! {

/// The battalion may be placed: it is of the side and of the division that is
/// placed, waits if only waiting ones are placed, and fights.
pub open spec fn movable(d: &Deployment, u: BattalionUnit) -> bool {
    placeable(d, u) && in_division(d, u) && u.effective()
}

/// The battalions, by index, may all be placed.
pub open spec fn all_placeable(d: &Deployment, units: Seq<BattalionUnit>, s: Seq<usize>) -> bool {
    forall|k: int|
        0 <= k < s.len() ==> (#[trigger] s[k]) < units.len() && movable(d, units[s[k] as int])
}

/// A deployment is in order: those of `moved` may be placed, stand in the zone
/// on hexes that were free and that are taken now, no two of them on one hex;
/// all others are as they were.
pub open spec fn in_order(
    d: &Deployment,
    units: Seq<BattalionUnit>,
    pre_used: Seq<HexCoord>,
    st: DeployView,
    moved: Set<int>,
) -> bool {
    &&& only_moved(units, st.units)
    &&& forall|h: HexCoord| #[trigger] pre_used.contains(h) ==> st.used.contains(h)
    &&& forall|i: int|
        #![trigger st.units[i]]
        0 <= i < units.len() && !moved.contains(i) ==> st.units[i] == units[i]
    &&& forall|i: int|
        #[trigger] moved.contains(i) ==> {
            &&& 0 <= i < units.len()
            &&& movable(d, units[i])
            &&& d.zone@.contains(st.units[i].position)
            &&& st.used.contains(st.units[i].position)
            &&& !pre_used.contains(st.units[i].position)
        }
    &&& forall|i: int, j: int|
        #![trigger moved.contains(i), moved.contains(j)]
        moved.contains(i) && moved.contains(j) && i != j ==> st.units[i].position != st.units[j].position
}

/// Whoever goes by the id of a headquarters that is placed may be placed too: the
/// headquarters itself where no two battalions share an id.
pub open spec fn heads_movable(d: &Deployment, units: Seq<BattalionUnit>) -> bool {
    forall|i: usize|
        i < units.len() && #[trigger] hq_candidate(d, units)(i) ==> movable(
            d,
            units[namesake(units, i as int) as int],
        )
}

/// Where no two battalions share an id, every headquarters goes by its own.
pub proof fn law_heads_movable(d: &Deployment, units: Seq<BattalionUnit>)
    requires
        ids_differ(units),
    ensures
        heads_movable(d, units),
{
    assert forall|i: usize| i < units.len() && #[trigger] hq_candidate(d, units)(i) implies movable(
        d,
        units[namesake(units, i as int) as int],
    ) by {
        law_first_where(units, |u: BattalionUnit| u.id == units[i as int].id);
    }
}

proof fn lemma_site_is_free(d: &Deployment, b: &DeployBook, used: Seq<HexCoord>, s: Search)
    ensures
        best_site(d, b, used, s) matches Ok(Some(h)) ==> d.zone@.contains(h) && !used.contains(h),
{
    if let Some(rows) = rows_of(d, b, s) {
        let keys = site_keys(d, used, s, rows);
        law_least(keys);
    }
}

proof fn lemma_put_in_order(
    d: &Deployment,
    units: Seq<BattalionUnit>,
    pre_used: Seq<HexCoord>,
    st: DeployView,
    moved: Set<int>,
    i: int,
    h: HexCoord,
)
    requires
        in_order(d, units, pre_used, st, moved),
        0 <= i < units.len(),
        movable(d, units[i]),
        d.zone@.contains(h),
        !st.used.contains(h),
    ensures
        in_order(d, units, pre_used, put(st, i, h), moved.insert(i)),
{
    let next = put(st, i, h);
    let after = moved.insert(i);
    assert(next.used[st.used.len() as int] == h);
    assert forall|x: HexCoord| st.used.contains(x) implies #[trigger] next.used.contains(x) by {
        let k = choose|k: int| 0 <= k < st.used.len() && st.used[k] == x;
        assert(next.used[k] == x);
    }
    assert forall|j: int|
        #![trigger units[j]]
        #![trigger next.units[j]]
        0 <= j < units.len() implies next.units[j] == units[j].at_hex(next.units[j].position) by {
        if j != i {
            assert(next.units[j] == st.units[j]);
        }
    }
    assert(!pre_used.contains(h));
    assert forall|j: int| #[trigger] after.contains(j) implies {
        &&& 0 <= j < units.len()
        &&& movable(d, units[j])
        &&& d.zone@.contains(next.units[j].position)
        &&& next.used.contains(next.units[j].position)
        &&& !pre_used.contains(next.units[j].position)
    } by {
        if j != i {
            assert(moved.contains(j));
            assert(next.units[j] == st.units[j]);
        }
    }
    assert forall|x: int, y: int|
        #![trigger after.contains(x), after.contains(y)]
        after.contains(x) && after.contains(y) && x != y implies next.units[x].position
        != next.units[y].position by {
        if x != i && y != i {
            assert(moved.contains(x) && moved.contains(y));
        } else if x != i {
            assert(moved.contains(x));
            assert(st.used.contains(st.units[x].position));
        } else {
            assert(moved.contains(y));
            assert(st.used.contains(st.units[y].position));
        }
    }
}

proof fn lemma_moved_alike(d: &Deployment, before: Seq<BattalionUnit>, after: Seq<BattalionUnit>, s: Seq<usize>)
    requires
        only_moved(before, after),
        all_placeable(d, after, s),
    ensures
        all_placeable(d, before, s),
{
    assert forall|k: int| 0 <= k < s.len() implies (#[trigger] s[k]) < before.len() && movable(d, before[s[k] as int]) by {
        assert(after[s[k] as int] == before[s[k] as int].at_hex(after[s[k] as int].position));
    }
}

proof fn lemma_pool_placeable(d: &Deployment, units: Seq<BattalionUnit>, ok: spec_fn(usize) -> bool)
    requires
        units.len() <= usize::MAX,
        forall|i: usize| #[trigger] ok(i) && i < units.len() ==> movable(d, units[i as int]),
    ensures
        all_placeable(d, units, those_where(indices(units.len()), ok)),
{
    let all = indices(units.len());
    let s = those_where(all, ok);
    law_those_where(all, ok);
    assert forall|k: int| 0 <= k < s.len() implies (#[trigger] s[k]) < units.len() && movable(d, units[s[k] as int]) by {
        assert(s.contains(s[k]));
        let j = choose|j: int| 0 <= j < all.len() && all[j] == s[k];
        assert(ok(s[k]));
    }
}

proof fn lemma_namesake_alike(before: Seq<BattalionUnit>, after: Seq<BattalionUnit>, i: int)
    requires
        only_moved(before, after),
        0 <= i < before.len(),
        before.len() <= usize::MAX,
    ensures
        namesake(after, i) == namesake(before, i),
        namesake(before, i) < before.len(),
{
    let id = before[i].id;
    let named = |u: BattalionUnit| u.id == id;
    assert(after[i] == before[i].at_hex(after[i].position));
    law_first_where(before, named);
    law_first_where(after, named);
    let a = first_where(after, named)->0;
    let k = first_where(before, named)->0;
    assert(named(before[i]) && named(after[i]));
    assert(after[a] == before[a].at_hex(after[a].position));
    assert(after[k] == before[k].at_hex(after[k].position));
    assert(!(a < k) && !(k < a));
}

proof fn lemma_hqs_placeable(d: &Deployment, units: Seq<BattalionUnit>, now: Seq<BattalionUnit>)
    requires
        only_moved(units, now),
        units.len() <= usize::MAX,
        heads_movable(d, units),
    ensures
        all_placeable(d, units, hqs_of(d, now)),
{
    let ok = hq_candidate(d, now);
    let all = indices(now.len());
    let heads = those_where(all, ok);
    law_those_where(all, ok);
    let s = hqs_of(d, now);
    assert forall|k: int| 0 <= k < s.len() implies (#[trigger] s[k]) < units.len() && movable(d, units[s[k] as int]) by {
        let i = heads[k];
        assert(heads.contains(i));
        let j = choose|j: int| 0 <= j < all.len() && all[j] == i;
        assert(ok(i));
        assert(now[i as int] == units[i as int].at_hex(now[i as int].position));
        assert(hq_candidate(d, units)(i));
        lemma_namesake_alike(units, now, i as int);
        assert(s[k] == namesake(now, i as int));
    }
}

proof fn lemma_weakest_placeable(d: &Deployment, units: Seq<BattalionUnit>, pool: Seq<usize>)
    requires
        all_placeable(d, units, pool),
        pool.len() <= usize::MAX,
    ensures
        all_placeable(d, units, weakest_first(units, pool)),
{
    law_ranking(weakness_ranks(units, pool));
    let order = ranked(weakness_ranks(units, pool));
    let s = weakest_first(units, pool);
    assert forall|k: int| 0 <= k < s.len() implies (#[trigger] s[k]) < units.len() && movable(d, units[s[k] as int]) by {
        assert(s[k] == pool[order[k] as int]);
    }
}

proof fn lemma_accepted_placeable(d: &Deployment, units: Seq<BattalionUnit>, pool: Seq<usize>, n: nat)
    requires
        all_placeable(d, units, pool),
        n <= pool.len(),
    ensures
        all_placeable(d, units, accepted_upto(d, units, pool, n)),
    decreases n,
{
    if n > 0 {
        lemma_accepted_placeable(d, units, pool, (n - 1) as nat);
        let rest = accepted_upto(d, units, pool, (n - 1) as nat);
        let s = accepted_upto(d, units, pool, n);
        assert forall|k: int| 0 <= k < s.len() implies (#[trigger] s[k]) < units.len() && movable(d, units[s[k] as int]) by {
            if k < rest.len() {
                assert(s[k] == rest[k]);
            } else {
                assert(s[k] == pool[n - 1]);
            }
        }
    }
}

proof fn lemma_garrison_placeable(d: &Deployment, units: Seq<BattalionUnit>)
    requires
        units.len() <= usize::MAX,
    ensures
        all_placeable(d, units, garrison_of(d, units)),
{
    let ok = garrison_candidate(d, units);
    lemma_pool_placeable(d, units, ok);
    law_those_where(indices(units.len()), ok);
    let found = those_where(indices(units.len()), ok);
    lemma_weakest_placeable(d, units, found);
    let pool = weakest_first(units, found);
    lemma_accepted_placeable(d, units, pool, pool.len());
    let accepted = accepted_upto(d, units, pool, pool.len());
    let s = garrison_of(d, units);
    assert forall|k: int| 0 <= k < s.len() implies (#[trigger] s[k]) < units.len() && movable(d, units[s[k] as int]) by {
        assert(s[k] == accepted[k]);
    }
}

proof fn lemma_armor_last_placeable(d: &Deployment, units: Seq<BattalionUnit>, pool: Seq<usize>, n: nat)
    requires
        all_placeable(d, units, pool),
        n <= pool.len(),
    ensures
        all_placeable(d, units, armor_last_upto(units, pool, n).head),
        all_placeable(d, units, armor_last_upto(units, pool, n).tail),
    decreases n,
{
    if n > 0 {
        lemma_armor_last_placeable(d, units, pool, (n - 1) as nat);
        let rest = armor_last_upto(units, pool, (n - 1) as nat);
        let o = armor_last_upto(units, pool, n);
        let joined = rest.head + rest.tail;
        assert forall|k: int| 0 <= k < joined.len() implies (#[trigger] joined[k]) < units.len()
            && movable(d, units[joined[k] as int]) by {
            if k < rest.head.len() {
                assert(joined[k] == rest.head[k]);
            } else {
                assert(joined[k] == rest.tail[k - rest.head.len()]);
            }
        }
        assert(all_placeable(d, units, joined));
        assert(pool[n - 1] < units.len());
    }
}

proof fn lemma_line_placeable(d: &Deployment, st: DeployView, f: Formation)
    requires
        st.units.len() <= usize::MAX,
    ensures
        all_placeable(d, st.units, line_order(d, st, f)),
        all_placeable(d, st.units, observers_of(d, st)),
{
    let ok = line_candidate(d, st.units, st.garrison);
    lemma_pool_placeable(d, st.units, ok);
    let pool = those_where(indices(st.units.len()), ok);
    law_those_where(indices(st.units.len()), ok);
    lemma_armor_last_placeable(d, st.units, pool, pool.len());
    let o = armor_last_upto(st.units, pool, pool.len());
    let joined = o.head + o.tail;
    assert forall|k: int| 0 <= k < joined.len() implies (#[trigger] joined[k]) < st.units.len()
        && movable(d, st.units[joined[k] as int]) by {
        if k < o.head.len() {
            assert(joined[k] == o.head[k]);
        } else {
            assert(joined[k] == o.tail[k - o.head.len()]);
        }
    }
    lemma_weakest_placeable(d, st.units, pool);
    let weak = weakest_first(st.units, pool);
    let s = observers_of(d, st);
    assert forall|k: int| 0 <= k < s.len() implies (#[trigger] s[k]) < st.units.len() && movable(d, st.units[s[k] as int]) by {
        assert(s[k] == weak[k]);
    }
}

proof fn lemma_garrison_in_order(
    d: &Deployment,
    b: &DeployBook,
    units: Seq<BattalionUnit>,
    pre_used: Seq<HexCoord>,
    st: DeployView,
    moved: Set<int>,
    chosen: Seq<usize>,
    n: nat,
) -> (after: Set<int>)
    requires
        in_order(d, units, pre_used, st, moved),
        all_placeable(d, units, chosen),
        n <= chosen.len(),
    ensures
        garrison_upto(d, b, st, chosen, n) matches Ok(s) ==> in_order(d, units, pre_used, s, after),
    decreases n,
{
    if n == 0 {
        moved
    } else {
        let before = lemma_garrison_in_order(d, b, units, pre_used, st, moved, chosen, (n - 1) as nat);
        match garrison_upto(d, b, st, chosen, (n - 1) as nat) {
            Err(_) => before,
            Ok(s) => {
                let i = chosen[n - 1] as int;
                let search = Search::Garrison { who: chosen[n - 1] };
                lemma_site_is_free(d, b, s.used, search);
                match best_site(d, b, s.used, search) {
                    Ok(Some(h)) => {
                        lemma_put_in_order(d, units, pre_used, s, before, i, h);
                        before.insert(i)
                    },
                    _ => before,
                }
            },
        }
    }
}

proof fn lemma_line_in_order(
    d: &Deployment,
    b: &DeployBook,
    units: Seq<BattalionUnit>,
    pre_used: Seq<HexCoord>,
    st: DeployView,
    moved: Set<int>,
    f: Formation,
    order: Seq<usize>,
    n: nat,
) -> (after: Set<int>)
    requires
        in_order(d, units, pre_used, st, moved),
        all_placeable(d, units, order),
        n <= order.len(),
    ensures
        line_upto(d, b, st, f, order, n) matches Ok(s) ==> in_order(d, units, pre_used, s, after),
    decreases n,
{
    if n == 0 {
        moved
    } else {
        let before = lemma_line_in_order(d, b, units, pre_used, st, moved, f, order, (n - 1) as nat);
        match line_upto(d, b, st, f, order, (n - 1) as nat) {
            Err(_) => before,
            Ok(s) => {
                let i = order[n - 1] as int;
                let search = line_search(d, s, f, order, n - 1);
                lemma_site_is_free(d, b, s.used, search);
                match best_site(d, b, s.used, search) {
                    Ok(Some(h)) => {
                        lemma_put_in_order(d, units, pre_used, s, before, i, h);
                        before.insert(i)
                    },
                    _ => before,
                }
            },
        }
    }
}

proof fn lemma_observers_in_order(
    d: &Deployment,
    b: &DeployBook,
    units: Seq<BattalionUnit>,
    pre_used: Seq<HexCoord>,
    st: DeployView,
    moved: Set<int>,
    shape: Shape,
    posts: Seq<usize>,
    n: nat,
) -> (after: Set<int>)
    requires
        in_order(d, units, pre_used, st, moved),
        all_placeable(d, units, posts),
        n <= posts.len(),
    ensures
        observers_upto(d, b, st, shape, posts, n) matches Ok(s) ==> in_order(d, units, pre_used, s, after),
    decreases n,
{
    if n == 0 {
        moved
    } else {
        let before = lemma_observers_in_order(
            d,
            b,
            units,
            pre_used,
            st,
            moved,
            shape,
            posts,
            (n - 1) as nat,
        );
        match observers_upto(d, b, st, shape, posts, (n - 1) as nat) {
            Err(_) => before,
            Ok(s) => {
                let i = posts[n - 1] as int;
                let u = s.units[i];
                let search = Search::Crest {
                    sector: sector_of(d, s.units, s.garrison, shape, u.division, true),
                    near: u.position,
                };
                lemma_site_is_free(d, b, s.used, search);
                match best_site(d, b, s.used, search) {
                    Ok(Some(h)) => {
                        lemma_put_in_order(d, units, pre_used, s, before, i, h);
                        before.insert(i)
                    },
                    _ => before,
                }
            },
        }
    }
}

proof fn lemma_support_in_order(
    d: &Deployment,
    b: &DeployBook,
    units: Seq<BattalionUnit>,
    pre_used: Seq<HexCoord>,
    st: DeployView,
    moved: Set<int>,
    f: Formation,
    guns: Seq<usize>,
    n: nat,
) -> (after: Set<int>)
    requires
        in_order(d, units, pre_used, st, moved),
        all_placeable(d, units, guns),
        n <= guns.len(),
    ensures
        support_upto(d, b, st, f, guns, n) matches Ok(s) ==> in_order(d, units, pre_used, s, after),
    decreases n,
{
    if n == 0 {
        moved
    } else {
        let before = lemma_support_in_order(
            d,
            b,
            units,
            pre_used,
            st,
            moved,
            f,
            guns,
            (n - 1) as nat,
        );
        match support_upto(d, b, st, f, guns, (n - 1) as nat) {
            Err(_) => before,
            Ok(s) => {
                let who = guns[n - 1];
                let u = s.units[who as int];
                let index = crate::pick::count_where(
                    guns.take(n - 1),
                    in_same_division(s.units, u.division),
                );
                let sector = sector_of(d, s.units, s.garrison, f.shape, u.division, false);
                let target = support_target(d, s, f, u);
                let slot = support_slot(d, s, u, index);
                lemma_site_is_free(
                    d,
                    b,
                    s.used,
                    Search::Band { who, sector, target, bounded: !f.loose, slot },
                );
                lemma_site_is_free(d, b, s.used, Search::Ground { who, sector, target, slot });
                match support_site(d, b, s, f, who, index) {
                    Ok(Some(h)) => {
                        lemma_put_in_order(d, units, pre_used, s, before, who as int, h);
                        before.insert(who as int)
                    },
                    _ => before,
                }
            },
        }
    }
}

proof fn lemma_hqs_in_order(
    d: &Deployment,
    b: &DeployBook,
    units: Seq<BattalionUnit>,
    pre_used: Seq<HexCoord>,
    st: DeployView,
    moved: Set<int>,
    hqs: Seq<usize>,
    n: nat,
) -> (after: Set<int>)
    requires
        in_order(d, units, pre_used, st, moved),
        all_placeable(d, units, hqs),
        n <= hqs.len(),
    ensures
        hqs_upto(d, b, st, hqs, n) matches Ok(s) ==> in_order(d, units, pre_used, s, after),
    decreases n,
{
    if n == 0 {
        moved
    } else {
        let before = lemma_hqs_in_order(d, b, units, pre_used, st, moved, hqs, (n - 1) as nat);
        match hqs_upto(d, b, st, hqs, (n - 1) as nat) {
            Err(_) => before,
            Ok(s) => {
                let i = hqs[n - 1] as int;
                let search = Search::Rear { anchor: command_anchor(d, s.units, s.units[i].division) };
                lemma_site_is_free(d, b, s.used, search);
                match best_site(d, b, s.used, search) {
                    Ok(Some(h)) => {
                        lemma_put_in_order(d, units, pre_used, s, before, i, h);
                        before.insert(i)
                    },
                    _ => before,
                }
            },
        }
    }
}

/// A deployment moves battalions of its side only, of the division that is
/// placed if one is named, none that was placed by hand if only waiting ones
/// are to be placed, and none that does not fight. Whoever is moved ends in the
/// zone, on a hex that was not taken before, and no two of them on one hex.
/// Nothing else changes. Headquarters are placed by id, so no headquarters may
/// go by the id of a battalion that must stay where it is.
pub proof fn law_deployment_is_in_order(
    d: &Deployment,
    b: &DeployBook,
    units: Seq<BattalionUnit>,
    pre_used: Seq<HexCoord>,
) -> (moved: Set<int>)
    requires
        units.len() <= usize::MAX,
        heads_movable(d, units),
    ensures
        deployed(d, b, units, pre_used) matches Ok(s) ==> {
            &&& in_order(d, units, pre_used, s, moved)
            &&& forall|i: int|
                0 <= i < units.len() && !(#[trigger] units[i]).effective() ==> s.units[i].position
                    == units[i].position
        },
{
    let f = formation_of(d.side == Side::Defender, d.tactic);
    let start = DeployView { units, used: pre_used, garrison: Seq::empty(), placed: Seq::empty() };
    let nobody = Set::<int>::empty();
    assert(in_order(d, units, pre_used, start, nobody));
    if d.zone@.len() == 0 || d.enemy_zone@.len() == 0 {
        nobody
    } else {
        lemma_garrison_placeable(d, units);
        let chosen = garrison_of(d, units);
        let m1 = lemma_garrison_in_order(d, b, units, pre_used, start, nobody, chosen, chosen.len());
        match garrisoned(d, b, start) {
            Err(_) => m1,
            Ok(s1) => {
                lemma_line_placeable(d, s1, f);
                let order = line_order(d, s1, f);
                lemma_moved_alike(d, units, s1.units, order);
                let m2 = lemma_line_in_order(d, b, units, pre_used, s1, m1, f, order, order.len());
                match lined_up(d, b, s1, f) {
                    Err(_) => m2,
                    Ok(s2) => lemma_rest(d, b, units, pre_used, s2, m2, f),
                }
            },
        }
    }
}

proof fn lemma_rest(
    d: &Deployment,
    b: &DeployBook,
    units: Seq<BattalionUnit>,
    pre_used: Seq<HexCoord>,
    s2: DeployView,
    m2: Set<int>,
    f: Formation,
) -> (moved: Set<int>)
    requires
        units.len() <= usize::MAX,
        heads_movable(d, units),
        in_order(d, units, pre_used, s2, m2),
    ensures
        observed(d, b, s2, f) matches Ok(s3) ==> (supported(d, b, s3, f) matches Ok(s4) ==> (headed(d, b, s4) matches Ok(
            s,
        ) ==> in_order(d, units, pre_used, s, moved))),
{
    lemma_line_placeable(d, s2, f);
    let posts = observers_of(d, s2);
    lemma_moved_alike(d, units, s2.units, posts);
    let m3 = if d.side == Side::Defender {
        lemma_observers_in_order(d, b, units, pre_used, s2, m2, f.shape, posts, posts.len())
    } else {
        m2
    };
    match observed(d, b, s2, f) {
        Err(_) => m3,
        Ok(s3) => {
            let ok = support_candidate(d, s3.units, s3.garrison);
            lemma_pool_placeable(d, s3.units, ok);
            let guns = those_where(indices(s3.units.len()), ok);
            lemma_moved_alike(d, units, s3.units, guns);
            let m4 = lemma_support_in_order(d, b, units, pre_used, s3, m3, f, guns, guns.len());
            match supported(d, b, s3, f) {
                Err(_) => m4,
                Ok(s4) => {
                    let hqs = hqs_of(d, s4.units);
                    lemma_hqs_placeable(d, units, s4.units);
                    lemma_hqs_in_order(d, b, units, pre_used, s4, m4, hqs, hqs.len())
                },
            }
        },
    }
}

pub(crate) proof fn lemma_count_of_prefix<A>(s: Seq<A>, ok: spec_fn(A) -> bool, n: int)
    requires
        0 <= n <= s.len(),
    ensures
        count_where(s.take(n), ok) <= count_where(s, ok),
    decreases s.len(),
{
    if n < s.len() {
        assert(s.drop_last().take(n) =~= s.take(n));
        lemma_count_of_prefix(s.drop_last(), ok, n);
    } else {
        assert(s.take(n) =~= s);
    }
}

proof fn lemma_accepted_under_cap(d: &Deployment, units: Seq<BattalionUnit>, pool: Seq<usize>, n: nat, division: usize)
    requires
        !all_in_city(d),
        n <= pool.len(),
    ensures
        count_where(accepted_upto(d, units, pool, n), in_same_division(units, division)) <= garrison_cap(
            units,
            pool,
            division,
        ),
    decreases n,
{
    if n > 0 {
        lemma_accepted_under_cap(d, units, pool, (n - 1) as nat, division);
        let rest = accepted_upto(d, units, pool, (n - 1) as nat);
        let s = accepted_upto(d, units, pool, n);
        if s.len() > rest.len() {
            assert(s.drop_last() =~= rest);
        }
    }
}

/// A defender's garrison spares the line: unless the whole line goes into the
/// city, no division gives more of its battalions to it than a third, or one
/// where a third is less, and the garrison keeps to its quota.
pub proof fn law_garrison_spares_the_divisions(d: &Deployment, units: Seq<BattalionUnit>, division: usize)
    requires
        d.side == Side::Defender,
        city_hexes(d).len() >= 3,
    ensures
        ({
            let pool = weakest_first(
                units,
                those_where(indices(units.len()), garrison_candidate(d, units)),
            );
            let garrison = garrison_of(d, units);
            &&& garrison.len() <= garrison_quota(d, pool.len())
            &&& !all_in_city(d) ==> count_where(garrison, in_same_division(units, division))
                <= garrison_cap(units, pool, division)
        }),
{
    let pool = weakest_first(
        units,
        those_where(indices(units.len()), garrison_candidate(d, units)),
    );
    let accepted = accepted_upto(d, units, pool, pool.len());
    let quota = garrison_quota(d, pool.len());
    if !all_in_city(d) {
        lemma_accepted_under_cap(d, units, pool, pool.len(), division);
    }
    if quota < accepted.len() {
        lemma_count_of_prefix(accepted, in_same_division(units, division), quota as int);
    }
}

proof fn lemma_garrison_in_city(
    d: &Deployment,
    b: &DeployBook,
    st: DeployView,
    chosen: Seq<usize>,
    n: nat,
)
    requires
        n <= chosen.len(),
        forall|k: int| 0 <= k < chosen.len() ==> (#[trigger] chosen[k]) < st.units.len(),
    ensures
        garrison_upto(d, b, st, chosen, n) matches Ok(s) ==> s.units.len() == st.units.len() && forall|i: int|
            0 <= i < st.units.len() ==> (#[trigger] s.units[i]) == st.units[i] || d.grid.urban_at(
                s.units[i].position,
            ),
    decreases n,
{
    if n > 0 {
        lemma_garrison_in_city(d, b, st, chosen, (n - 1) as nat);
        if let Ok(s) = garrison_upto(d, b, st, chosen, (n - 1) as nat) {
            let search = Search::Garrison { who: chosen[n - 1] };
            if let Some(rows) = rows_of(d, b, search) {
                let keys = site_keys(d, s.used, search, rows);
                law_least(keys);
                if let Some(k) = least(keys) {
                    assert(keys[k] is Some);
                    assert(d.grid.urban_at(d.zone@[k]));
                }
            }
        }
    }
}

/// Whoever is put into the garrison stands in the city.
pub proof fn law_garrison_stands_in_the_city(d: &Deployment, b: &DeployBook, st: DeployView)
    requires
        st.units.len() <= usize::MAX,
    ensures
        garrisoned(d, b, st) matches Ok(s) ==> s.units.len() == st.units.len() && forall|i: int|
            0 <= i < st.units.len() ==> (#[trigger] s.units[i]) == st.units[i] || d.grid.urban_at(
                s.units[i].position,
            ),
{
    let chosen = garrison_of(d, st.units);
    lemma_garrison_placeable(d, st.units);
    lemma_garrison_in_city(d, b, st, chosen, chosen.len());
}

/// Without a zone of its own, or of the enemy, nobody is deployed.
pub proof fn law_no_zone_no_deployment(
    d: &Deployment,
    b: &DeployBook,
    units: Seq<BattalionUnit>,
    pre_used: Seq<HexCoord>,
)
    requires
        d.zone@.len() == 0 || d.enemy_zone@.len() == 0,
    ensures
        deployed(d, b, units, pre_used) matches Ok(s) && s.units == units,
{
}

// ---- what a deployment asks ----

/// What is asked, if anything, is a table that the book lacks.
pub open spec fn lacking<A>(d: &Deployment, b: &DeployBook, r: Result<A, Asked>) -> bool {
    r matches Err(q) ==> rows_of(d, b, q.search) is None
}

proof fn lemma_garrison_lacks(d: &Deployment, b: &DeployBook, st: DeployView, chosen: Seq<usize>, n: nat)
    ensures
        lacking(d, b, garrison_upto(d, b, st, chosen, n)),
    decreases n,
{
    if n > 0 {
        lemma_garrison_lacks(d, b, st, chosen, (n - 1) as nat);
    }
}

proof fn lemma_line_lacks(d: &Deployment, b: &DeployBook, st: DeployView, f: Formation, order: Seq<usize>, n: nat)
    ensures
        lacking(d, b, line_upto(d, b, st, f, order, n)),
    decreases n,
{
    if n > 0 {
        lemma_line_lacks(d, b, st, f, order, (n - 1) as nat);
    }
}

proof fn lemma_observers_lack(d: &Deployment, b: &DeployBook, st: DeployView, shape: Shape, posts: Seq<usize>, n: nat)
    ensures
        lacking(d, b, observers_upto(d, b, st, shape, posts, n)),
    decreases n,
{
    if n > 0 {
        lemma_observers_lack(d, b, st, shape, posts, (n - 1) as nat);
    }
}

proof fn lemma_support_lacks(d: &Deployment, b: &DeployBook, st: DeployView, f: Formation, guns: Seq<usize>, n: nat)
    ensures
        lacking(d, b, support_upto(d, b, st, f, guns, n)),
    decreases n,
{
    if n > 0 {
        lemma_support_lacks(d, b, st, f, guns, (n - 1) as nat);
    }
}

proof fn lemma_hqs_lack(d: &Deployment, b: &DeployBook, st: DeployView, hqs: Seq<usize>, n: nat)
    ensures
        lacking(d, b, hqs_upto(d, b, st, hqs, n)),
    decreases n,
{
    if n > 0 {
        lemma_hqs_lack(d, b, st, hqs, (n - 1) as nat);
    }
}

/// A deployment fails only for want of a table: whatever it asks for, the book
/// has no table of that search for the zone.
pub proof fn law_only_missing_tables_are_asked_for(
    d: &Deployment,
    b: &DeployBook,
    units: Seq<BattalionUnit>,
    pre_used: Seq<HexCoord>,
)
    ensures
        deployed(d, b, units, pre_used) matches Err(q) ==> rows_of(d, b, q.search) is None,
{
    let start = DeployView { units, used: pre_used, garrison: Seq::empty(), placed: Seq::empty() };
    let f = formation_of(d.side == Side::Defender, d.tactic);
    let chosen = garrison_of(d, units);
    lemma_garrison_lacks(d, b, start, chosen, chosen.len());
    if let Ok(s1) = garrisoned(d, b, start) {
        let order = line_order(d, s1, f);
        lemma_line_lacks(d, b, s1, f, order, order.len());
        if let Ok(s2) = lined_up(d, b, s1, f) {
            let posts = observers_of(d, s2);
            lemma_observers_lack(d, b, s2, f.shape, posts, posts.len());
            if let Ok(s3) = observed(d, b, s2, f) {
                let guns = those_where(
                    indices(s3.units.len()),
                    support_candidate(d, s3.units, s3.garrison),
                );
                lemma_support_lacks(d, b, s3, f, guns, guns.len());
                if let Ok(s4) = supported(d, b, s3, f) {
                    let hqs = hqs_of(d, s4.units);
                    lemma_hqs_lack(d, b, s4, hqs, hqs.len());
                }
            }
        }
    }
}

} // verus!
