//! How the planners search a list: the first match, the best match, the
//! number of matches.
use vstd::prelude::*;

verus! {

/// The index of the first element that is `ok`.
pub open spec fn first_where<A>(s: Seq<A>, ok: spec_fn(A) -> bool) -> Option<int>
    decreases s.len(),
{
    if s.len() == 0 {
        None
    } else {
        match first_where(s.drop_last(), ok) {
            Some(i) => Some(i),
            None => if ok(s.last()) {
                Some(s.len() - 1)
            } else {
                None
            },
        }
    }
}

/// The index of the winner among the elements that are `ok`, taken in order:
/// the first of them leads, and one that beats the leader takes the lead.
pub open spec fn winner<A>(s: Seq<A>, ok: spec_fn(A) -> bool, beats: spec_fn(A, A) -> bool) -> Option<
    int,
>
    decreases s.len(),
{
    if s.len() == 0 {
        None
    } else {
        let lead = winner(s.drop_last(), ok, beats);
        if !ok(s.last()) {
            lead
        } else {
            match lead {
                Some(i) => if beats(s.last(), s[i]) {
                    Some(s.len() - 1)
                } else {
                    Some(i)
                },
                None => Some(s.len() - 1),
            }
        }
    }
}

/// How many elements are `ok`.
pub open spec fn count_where<A>(s: Seq<A>, ok: spec_fn(A) -> bool) -> nat
    decreases s.len(),
{
    if s.len() == 0 {
        0
    } else {
        count_where(s.drop_last(), ok) + if ok(s.last()) {
            1nat
        } else {
            0nat
        }
    }
}

/// The elements that are `ok`, in order.
pub open spec fn those_where<A>(s: Seq<A>, ok: spec_fn(A) -> bool) -> Seq<A>
    decreases s.len(),
{
    if s.len() == 0 {
        Seq::empty()
    } else {
        let rest = those_where(s.drop_last(), ok);
        if ok(s.last()) {
            rest.push(s.last())
        } else {
            rest
        }
    }
}

/// The numbers from 0 up to `n`.
pub open spec fn indices(n: nat) -> Seq<usize> {
    Seq::new(n, |i: int| i as usize)
}

/// The first match is a match with none before it, and there is one if any
/// element matches.
pub proof fn law_first_where<A>(s: Seq<A>, ok: spec_fn(A) -> bool)
    ensures
        match first_where(s, ok) {
            Some(i) => 0 <= i < s.len() && ok(s[i]) && forall|j: int| 0 <= j < i ==> !ok(#[trigger] s[j]),
            None => forall|j: int| 0 <= j < s.len() ==> !ok(#[trigger] s[j]),
        },
    decreases s.len(),
{
    if s.len() > 0 {
        let t = s.drop_last();
        law_first_where(t, ok);
        assert forall|j: int| 0 <= j < s.len() && j != s.len() - 1 implies t[j] == #[trigger] s[j] by {}
    }
}

/// The winner matches, and there is one if any element matches.
pub proof fn law_winner_matches<A>(s: Seq<A>, ok: spec_fn(A) -> bool, beats: spec_fn(A, A) -> bool)
    ensures
        match winner(s, ok, beats) {
            Some(i) => 0 <= i < s.len() && ok(s[i]),
            None => forall|j: int| 0 <= j < s.len() ==> !ok(#[trigger] s[j]),
        },
    decreases s.len(),
{
    if s.len() > 0 {
        let t = s.drop_last();
        law_winner_matches(t, ok, beats);
        assert forall|j: int| 0 <= j < s.len() && j != s.len() - 1 implies t[j] == #[trigger] s[j] by {}
    }
}

/// Where a smaller key beats a larger one, the winner is the first of the
/// matches with the least key.
pub proof fn law_winner_is_the_first_least<A>(s: Seq<A>, ok: spec_fn(A) -> bool, key: spec_fn(A) -> int)
    ensures
        winner(s, ok, |a: A, b: A| key(a) < key(b)) matches Some(i) ==> {
            &&& 0 <= i < s.len() && ok(s[i])
            &&& forall|j: int| 0 <= j < s.len() && ok(#[trigger] s[j]) ==> key(s[i]) <= key(s[j])
            &&& forall|j: int| 0 <= j < i && ok(#[trigger] s[j]) ==> key(s[i]) < key(s[j])
        },
    decreases s.len(),
{
    let beats = |a: A, b: A| key(a) < key(b);
    law_winner_matches(s, ok, beats);
    if s.len() > 0 {
        let t = s.drop_last();
        law_winner_is_the_first_least(t, ok, key);
        law_winner_matches(t, ok, beats);
        assert forall|j: int| 0 <= j < s.len() && j != s.len() - 1 implies t[j] == #[trigger] s[j] by {}
    }
}

/// The matches are listed in order: each of them matches, and an element is
/// listed exactly if it occurs and matches.
pub proof fn law_those_where<A>(s: Seq<A>, ok: spec_fn(A) -> bool)
    ensures
        those_where(s, ok).len() == count_where(s, ok),
        count_where(s, ok) <= s.len(),
        forall|x: A| #[trigger] those_where(s, ok).contains(x) <==> s.contains(x) && ok(x),
    decreases s.len(),
{
    if s.len() > 0 {
        let t = s.drop_last();
        law_those_where(t, ok);
        let r = those_where(t, ok);
        let all = those_where(s, ok);
        assert forall|x: A| #[trigger] all.contains(x) <==> s.contains(x) && ok(x) by {
            if all.contains(x) {
                let i = choose|i: int| 0 <= i < all.len() && all[i] == x;
                if i < r.len() {
                    assert(r[i] == x);
                    assert(r.contains(x));
                    let j = choose|j: int| 0 <= j < t.len() && t[j] == x;
                    assert(s[j] == x);
                } else {
                    assert(s.last() == x);
                }
            }
            if s.contains(x) && ok(x) {
                let j = choose|j: int| 0 <= j < s.len() && s[j] == x;
                if j < t.len() {
                    assert(t[j] == x);
                    assert(t.contains(x));
                    assert(r.contains(x));
                    let i = choose|i: int| 0 <= i < r.len() && r[i] == x;
                    assert(all[i] == x);
                } else {
                    assert(all.last() == x);
                }
            }
        }
    } else {
        assert(those_where(s, ok) =~= Seq::<A>::empty());
    }
}

/// A count is positive exactly if something matches.
pub proof fn law_count_is_positive<A>(s: Seq<A>, ok: spec_fn(A) -> bool)
    ensures
        count_where(s, ok) > 0 <==> exists|i: int| 0 <= i < s.len() && ok(#[trigger] s[i]),
    decreases s.len(),
{
    if s.len() > 0 {
        let t = s.drop_last();
        law_count_is_positive(t, ok);
        if exists|i: int| 0 <= i < s.len() && ok(#[trigger] s[i]) {
            let i = choose|i: int| 0 <= i < s.len() && ok(#[trigger] s[i]);
            if i < t.len() {
                assert(ok(t[i]));
            }
        }
        if count_where(t, ok) > 0 {
            let i = choose|i: int| 0 <= i < t.len() && ok(#[trigger] t[i]);
            assert(ok(s[i]));
        }
    }
}

/// What candidates are ranked by: the numbers in turn, the smaller first.
#[derive(Debug, Clone, Copy, PartialEq, Eq, Structural)]
pub struct Key {
    pub a: i128,
    pub b: i128,
    pub c: i128,
    pub d: i128,
}

/// Key `x` ranks before key `y`.
pub open spec fn before(x: Key, y: Key) -> bool {
    x.a < y.a || (x.a == y.a && (x.b < y.b || (x.b == y.b && (x.c < y.c || (x.c == y.c && x.d < y.d)))))
}

pub fn ranks_before(x: Key, y: Key) -> (r: bool)
    ensures
        r == before(x, y),
{
    if x.a != y.a {
        x.a < y.a
    } else if x.b != y.b {
        x.b < y.b
    } else if x.c != y.c {
        x.c < y.c
    } else {
        x.d < y.d
    }
}

/// The index of the first of the least keys; a candidate without a key does
/// not count.
pub open spec fn least(keys: Seq<Option<Key>>) -> Option<int>
    decreases keys.len(),
{
    if keys.len() == 0 {
        None
    } else {
        match (keys.last(), least(keys.drop_last())) {
            (Some(k), Some(i)) => if before(k, keys[i]->0) {
                Some(keys.len() - 1)
            } else {
                Some(i)
            },
            (Some(_), None) => Some(keys.len() - 1),
            (None, rest) => rest,
        }
    }
}

/// The index of the first of the least keys.
pub fn find_least(keys: &Vec<Option<Key>>) -> (best: Option<usize>)
    ensures
        match best {
            Some(i) => least(keys@) == Some(i as int) && i < keys@.len() && keys@[i as int] is Some,
            None => least(keys@) is None,
        },
{
    let mut best: Option<usize> = None;
    let mut i: usize = 0;
    assert(keys@.take(0) =~= Seq::<Option<Key>>::empty());
    while i < keys.len()
        invariant
            i <= keys@.len(),
            match best {
                Some(b) => least(keys@.take(i as int)) == Some(b as int) && b < i && keys@[b as int] is Some,
                None => least(keys@.take(i as int)) is None,
            },
        decreases keys@.len() - i,
    {
        proof {
            assert(keys@.take(i + 1).drop_last() =~= keys@.take(i as int));
            assert(keys@.take(i + 1).last() == keys@[i as int]);
            if let Some(b) = best {
                assert(keys@.take(i + 1)[b as int] == keys@[b as int]);
            }
        }
        if let Some(k) = keys[i] {
            best = match best {
                Some(b) => match keys[b] {
                    Some(lead) => if ranks_before(k, lead) {
                        Some(i)
                    } else {
                        Some(b)
                    },
                    None => Some(b),
                },
                None => Some(i),
            };
        }
        i += 1;
    }
    assert(keys@.take(keys@.len() as int) =~= keys@);
    best
}

/// The least key is the first among those than which none ranks before; there
/// is one if any candidate has a key.
pub proof fn law_least(keys: Seq<Option<Key>>)
    ensures
        match least(keys) {
            Some(i) => {
                &&& 0 <= i < keys.len()
                &&& keys[i] is Some
                &&& forall|j: int|
                    0 <= j < keys.len() && (#[trigger] keys[j]) is Some ==> !before(keys[j]->0, keys[i]->0)
                &&& forall|j: int|
                    0 <= j < i && (#[trigger] keys[j]) is Some ==> before(keys[i]->0, keys[j]->0)
            },
            None => forall|j: int| 0 <= j < keys.len() ==> (#[trigger] keys[j]) is None,
        },
    decreases keys.len(),
{
    if keys.len() > 0 {
        let t = keys.drop_last();
        law_least(t);
        assert forall|j: int| 0 <= j < keys.len() && j != keys.len() - 1 implies t[j] == #[trigger] keys[j] by {}
    }
}

/// A ranking with one more candidate, placed behind all that it does not rank
/// before.
pub open spec fn placed(keys: Seq<Key>, order: Seq<usize>, i: int) -> Seq<usize>
    decreases order.len(),
{
    if order.len() == 0 {
        seq![i as usize]
    } else if before(keys[i], keys[order.last() as int]) {
        placed(keys, order.drop_last(), i).push(order.last())
    } else {
        order.push(i as usize)
    }
}

/// The first `n` candidates, ranked by their keys; equals keep their order.
pub open spec fn ranked_upto(keys: Seq<Key>, n: nat) -> Seq<usize>
    decreases n,
{
    if n == 0 {
        Seq::empty()
    } else {
        placed(keys, ranked_upto(keys, (n - 1) as nat), n - 1)
    }
}

/// The candidates, ranked by their keys; equals keep their order.
pub open spec fn ranked(keys: Seq<Key>) -> Seq<usize> {
    ranked_upto(keys, keys.len())
}

proof fn lemma_placed(keys: Seq<Key>, order: Seq<usize>, i: int)
    requires
        0 <= i < keys.len() <= usize::MAX,
        forall|k: int| 0 <= k < order.len() ==> (#[trigger] order[k]) < i,
        forall|x: int, y: int|
            0 <= x < y < order.len() ==> !before(
                keys[(#[trigger] order[y]) as int],
                keys[(#[trigger] order[x]) as int],
            ),
        order.no_duplicates(),
    ensures
        placed(keys, order, i).len() == order.len() + 1,
        forall|k: int| 0 <= k < placed(keys, order, i).len() ==> (#[trigger] placed(keys, order, i)[k]) <= i,
        forall|x: int, y: int|
            0 <= x < y < placed(keys, order, i).len() ==> !before(
                keys[(#[trigger] placed(keys, order, i)[y]) as int],
                keys[(#[trigger] placed(keys, order, i)[x]) as int],
            ),
        placed(keys, order, i).no_duplicates(),
        forall|u: usize|
            #[trigger] placed(keys, order, i).contains(u) <==> order.contains(u) || u == i,
        forall|x: int, y: int|
            0 <= x < y < placed(keys, order, i).len() && !before(
                keys[(#[trigger] placed(keys, order, i)[x]) as int],
                keys[(#[trigger] placed(keys, order, i)[y]) as int],
            ) ==> placed(keys, order, i)[x] < placed(keys, order, i)[y] || exists|v: int, w: int|
                0 <= v < w < order.len() && order[v] == placed(keys, order, i)[x] && order[w] == placed(
                    keys,
                    order,
                    i,
                )[y],
    decreases order.len(),
{
    let p = placed(keys, order, i);
    if order.len() == 0 {
        assert(p[0] == i);
        assert forall|u: usize| #[trigger] p.contains(u) <==> order.contains(u) || u == i by {
            if u == i {
                assert(p[0] == u);
            }
        }
    } else if before(keys[i], keys[order.last() as int]) {
        let t = order.drop_last();
        assert forall|k: int| 0 <= k < t.len() implies (#[trigger] t[k]) < i by {
            assert(t[k] == order[k]);
        }
        assert forall|x: int, y: int| 0 <= x < y < t.len() implies !before(
            keys[(#[trigger] t[y]) as int],
            keys[(#[trigger] t[x]) as int],
        ) by {
            assert(t[x] == order[x] && t[y] == order[y]);
        }
        lemma_placed(keys, t, i);
        let q = placed(keys, t, i);
        let l = order.last();
        assert(p == q.push(l));
        assert(order[order.len() - 1] == l);
        assert forall|u: usize| #[trigger] p.contains(u) <==> order.contains(u) || u == i by {
            if p.contains(u) {
                let k = choose|k: int| 0 <= k < p.len() && p[k] == u;
                if k < q.len() {
                    assert(q[k] == u);
                    assert(q.contains(u));
                    if t.contains(u) {
                        let j = choose|j: int| 0 <= j < t.len() && t[j] == u;
                        assert(order[j] == u);
                    }
                } else {
                    assert(order[order.len() - 1] == u);
                }
            }
            if order.contains(u) || u == i {
                if u == l {
                    assert(p[q.len() as int] == u);
                } else {
                    if order.contains(u) {
                        let j = choose|j: int| 0 <= j < order.len() && order[j] == u;
                        assert(t[j] == u);
                        assert(t.contains(u));
                    }
                    assert(q.contains(u));
                    let k = choose|k: int| 0 <= k < q.len() && q[k] == u;
                    assert(p[k] == u);
                }
            }
        }
        assert(!q.contains(l)) by {
            if t.contains(l) {
                let j = choose|j: int| 0 <= j < t.len() && t[j] == l;
                assert(order[j] == order[order.len() - 1]);
            }
        }
        assert forall|x: int, y: int| 0 <= x < y < p.len() implies !before(
            keys[(#[trigger] p[y]) as int],
            keys[(#[trigger] p[x]) as int],
        ) by {
            if y < q.len() {
                assert(p[x] == q[x] && p[y] == q[y]);
            } else {
                assert(p[x] == q[x] && p[y] == l);
                assert(q.contains(q[x]));
                if q[x] != i {
                    assert(t.contains(q[x]));
                    let j = choose|j: int| 0 <= j < t.len() && t[j] == q[x];
                    assert(order[j] == q[x]);
                    assert(!before(keys[order[order.len() - 1] as int], keys[order[j] as int]));
                }
            }
        }
        assert(p.no_duplicates()) by {
            assert forall|x: int, y: int| 0 <= x < p.len() && 0 <= y < p.len() && x != y implies p[x]
                != p[y] by {
                if x < q.len() {
                    assert(q.contains(q[x]));
                }
                if y < q.len() {
                    assert(q.contains(q[y]));
                }
            }
        }
        assert forall|x: int, y: int|
            0 <= x < y < p.len() && !before(
                keys[(#[trigger] p[x]) as int],
                keys[(#[trigger] p[y]) as int],
            ) implies p[x] < p[y] || exists|v: int, w: int|
            0 <= v < w < order.len() && order[v] == p[x] && order[w] == p[y] by {
            if y < q.len() {
                assert(p[x] == q[x] && p[y] == q[y]);
                if !(q[x] < q[y]) {
                    let (v, w) = choose|v: int, w: int|
                        0 <= v < w < t.len() && t[v] == q[x] && t[w] == q[y];
                    assert(order[v] == p[x] && order[w] == p[y]);
                }
            } else {
                assert(p[x] == q[x] && p[y] == l);
                assert(q.contains(q[x]));
                if q[x] != i {
                    assert(t.contains(q[x]));
                    let j = choose|j: int| 0 <= j < t.len() && t[j] == q[x];
                    assert(order[j] == p[x] && order[order.len() - 1] == p[y]);
                }
            }
        }
    } else {
        assert(p == order.push(i as usize));
        assert forall|u: usize| #[trigger] p.contains(u) <==> order.contains(u) || u == i by {
            if p.contains(u) {
                let k = choose|k: int| 0 <= k < p.len() && p[k] == u;
                if k < order.len() {
                    assert(order[k] == u);
                }
            }
            if order.contains(u) {
                let k = choose|k: int| 0 <= k < order.len() && order[k] == u;
                assert(p[k] == u);
            }
            if u == i {
                assert(p[order.len() as int] == u);
            }
        }
        let l = order[order.len() - 1];
        assert forall|x: int, y: int| 0 <= x < y < p.len() implies !before(
            keys[(#[trigger] p[y]) as int],
            keys[(#[trigger] p[x]) as int],
        ) by {
            if y < order.len() {
                assert(p[x] == order[x] && p[y] == order[y]);
            } else {
                assert(p[x] == order[x] && p[y] == i);
                if x < order.len() - 1 {
                    assert(!before(keys[l as int], keys[order[x] as int]));
                }
            }
        }
        assert forall|x: int, y: int|
            0 <= x < y < p.len() && !before(
                keys[(#[trigger] p[x]) as int],
                keys[(#[trigger] p[y]) as int],
            ) implies p[x] < p[y] || exists|v: int, w: int|
            0 <= v < w < order.len() && order[v] == p[x] && order[w] == p[y] by {
            if y < order.len() {
                assert(order[x] == p[x] && order[y] == p[y]);
            }
        }
    }
}

proof fn lemma_ranked(keys: Seq<Key>, n: nat)
    requires
        n <= keys.len() <= usize::MAX,
    ensures
        ({
            let r = ranked_upto(keys, n);
            &&& r.len() == n
            &&& r.no_duplicates()
            &&& forall|k: int| 0 <= k < n ==> (#[trigger] r[k]) < n
            &&& forall|u: usize| #[trigger] r.contains(u) <==> u < n
            &&& forall|x: int, y: int|
                0 <= x < y < n ==> !before(keys[(#[trigger] r[y]) as int], keys[(#[trigger] r[x]) as int])
            &&& forall|x: int, y: int|
                0 <= x < y < n && !before(keys[(#[trigger] r[x]) as int], keys[(#[trigger] r[y]) as int])
                    ==> r[x] < r[y]
        }),
    decreases n,
{
    if n > 0 {
        let m = (n - 1) as nat;
        lemma_ranked(keys, m);
        let order = ranked_upto(keys, m);
        lemma_placed(keys, order, n - 1);
        let r = ranked_upto(keys, n);
        assert forall|x: int, y: int|
            0 <= x < y < n && !before(
                keys[(#[trigger] r[x]) as int],
                keys[(#[trigger] r[y]) as int],
            ) implies r[x] < r[y] by {
            if !(r[x] < r[y]) {
                let (v, w) = choose|v: int, w: int|
                    0 <= v < w < order.len() && order[v] == r[x] && order[w] == r[y];
                assert(order[v] < order[w]);
            }
        }
    }
}

/// A ranking lists every candidate once, none before one that ranks before it,
/// and equals in their order.
pub proof fn law_ranking(keys: Seq<Key>)
    requires
        keys.len() <= usize::MAX,
    ensures
        ({
            let r = ranked(keys);
            &&& r.len() == keys.len()
            &&& r.no_duplicates()
            &&& forall|k: int| 0 <= k < r.len() ==> (#[trigger] r[k]) < keys.len()
            &&& forall|x: int, y: int|
                0 <= x < y < r.len() ==> !before(
                    keys[(#[trigger] r[y]) as int],
                    keys[(#[trigger] r[x]) as int],
                )
            &&& forall|x: int, y: int|
                0 <= x < y < r.len() && !before(
                    keys[(#[trigger] r[x]) as int],
                    keys[(#[trigger] r[y]) as int],
                ) ==> r[x] < r[y]
        }),
{
    lemma_ranked(keys, keys.len());
}

/// Places candidate `i` into a ranking.
fn place(keys: &Vec<Key>, order: Vec<usize>, i: usize) -> (out: Vec<usize>)
    requires
        i < keys@.len(),
        forall|k: int| 0 <= k < order@.len() ==> (#[trigger] order@[k]) < keys@.len(),
    ensures
        out@ == placed(keys@, order@, i as int),
        forall|k: int| 0 <= k < out@.len() ==> (#[trigger] out@[k]) < keys@.len(),
{
    let mut at: usize = order.len();
    let ghost full = order@;
    assert(full.take(at as int) =~= full);
    assert(full.skip(at as int) =~= Seq::<usize>::empty());
    assert(placed(keys@, full, i as int) =~= placed(keys@, full.take(at as int), i as int) + full.skip(
        at as int,
    ));
    while at > 0 && ranks_before(keys[i], keys[order[at - 1]])
        invariant
            i < keys@.len(),
            at <= order@.len(),
            full == order@,
            forall|k: int| 0 <= k < order@.len() ==> (#[trigger] order@[k]) < keys@.len(),
            placed(keys@, full, i as int) == placed(keys@, full.take(at as int), i as int) + full.skip(
                at as int,
            ),
        decreases at,
    {
        proof {
            let t = full.take(at as int);
            assert(t.last() == full[at - 1]);
            assert(t.drop_last() =~= full.take(at - 1));
            assert(placed(keys@, t, i as int) == placed(keys@, full.take(at - 1), i as int).push(
                full[at - 1],
            ));
            assert(placed(keys@, full.take(at - 1), i as int).push(full[at - 1]) + full.skip(at as int)
                =~= placed(keys@, full.take(at - 1), i as int) + full.skip(at - 1));
        }
        at -= 1;
    }
    proof {
        let t = full.take(at as int);
        if at > 0 {
            assert(t.last() == full[at - 1]);
        }
        assert(placed(keys@, t, i as int) =~= t.push(i));
    }
    let mut out: Vec<usize> = order;
    out.insert(at, i);
    assert(out@ =~= full.take(at as int).push(i) + full.skip(at as int));
    out
}

/// Ranks the candidates by their keys; equals keep their order.
pub fn rank(keys: &Vec<Key>) -> (order: Vec<usize>)
    ensures
        order@ == ranked(keys@),
        order@.len() == keys@.len(),
        forall|k: int| 0 <= k < order@.len() ==> (#[trigger] order@[k]) < keys@.len(),
{
    let mut order: Vec<usize> = Vec::new();
    let mut i: usize = 0;
    while i < keys.len()
        invariant
            i <= keys@.len(),
            order@ == ranked_upto(keys@, i as nat),
            forall|k: int| 0 <= k < order@.len() ==> (#[trigger] order@[k]) < keys@.len(),
        decreases keys@.len() - i,
    {
        order = place(keys, order, i);
        i += 1;
    }
    proof {
        lemma_ranked(keys@, keys@.len());
    }
    order
}

} // verus!
