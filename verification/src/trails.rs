//! What the reverse scan visits, trail by trail, and which routes it therefore finds.
//!
//! A trail is a list of pointers of the map, by their places in it, from the target outwards: the
//! first leads near the target, each next one near the location of the one before.
use crate::chain;
use crate::meaning;
use crate::path;
use crate::path::{Route, ScanOpts};
use crate::pointers;
use crate::pointers::Pointer;
use crate::reverse;
use crate::reverse::Graph;
use crate::sort;
use vstd::prelude::*;

verus! {

/// `a` comes before `b` as words do in a dictionary.
pub open spec fn comes_before(a: Seq<int>, b: Seq<int>) -> bool
    decreases a.len(),
{
    if b.len() == 0 {
        false
    } else if a.len() == 0 {
        true
    } else {
        a[0] < b[0] || (a[0] == b[0] && comes_before(
            a.subrange(1, a.len() as int),
            b.subrange(1, b.len() as int),
        ))
    }
}

/// An address of the image.
pub open spec fn is_static(g: Graph, addr: usize) -> bool {
    g.image.base <= addr && addr < g.image.base + g.image.size
}

/// `ks` is a trail back from `target`: each pointer leads to at most the largest offset before the
/// address reached, no address is reached twice, nor one of `on_path`, and only the last pointer may
/// stand in the image.
pub open spec fn is_trail(g: Graph, target: usize, on_path: Set<usize>, ks: Seq<int>) -> bool
    decreases ks.len(),
{
    &&& ks.len() > 0
    &&& !on_path.contains(target)
    &&& 0 <= ks[0] < g.ptrs.len()
    &&& g.ptrs[ks[0]].0 <= target
    &&& target - g.ptrs[ks[0]].0 <= g.max_offset
    &&& ks.len() > 1 ==> !is_static(g, g.ptrs[ks[0]].1) && is_trail(
        g,
        g.ptrs[ks[0]].1,
        on_path.insert(target),
        ks.subrange(1, ks.len() as int),
    )
}

/// The offsets along a trail, those at the image first.
pub open spec fn trail_offsets(g: Graph, target: usize, ks: Seq<int>) -> Seq<usize>
    decreases ks.len(),
{
    if ks.len() == 0 {
        Seq::empty()
    } else {
        trail_offsets(g, g.ptrs[ks[0]].1, ks.subrange(1, ks.len() as int)).push(
            (target - g.ptrs[ks[0]].0) as usize,
        )
    }
}

/// A trail of `depth` pointers ends in the image: it makes the route `r`.
pub open spec fn makes(g: Graph, target: usize, depth: int, ks: Seq<int>, r: Route) -> bool {
    &&& ks.len() == depth
    &&& is_static(g, g.ptrs[ks.last()].1)
    &&& r.0 == g.ptrs[ks.last()].1 - g.image.base
    &&& r.1 == trail_offsets(g, target, ks)
}

/// What a visit along a trail completes.
spec fn visit_of(g: Graph, target: usize, left: nat, tail: Seq<usize>, ks: Seq<int>) -> Option<
    Route,
> {
    if ks.len() == left && is_static(g, g.ptrs[ks.last()].1) {
        Some(
            (
                (g.ptrs[ks.last()].1 - g.image.base) as usize,
                trail_offsets(g, target, ks) + tail,
            ),
        )
    } else {
        None
    }
}

/// `keys` are the trails of at most `left` pointers whose first has a place below `m`, in order, and
/// `visits` what they complete.
spec fn lists(
    g: Graph,
    target: usize,
    left: nat,
    tail: Seq<usize>,
    on_path: Set<usize>,
    m: int,
    keys: Seq<Seq<int>>,
    visits: Seq<Option<Route>>,
) -> bool {
    &&& keys.len() == visits.len()
    &&& forall|n: int|
        0 <= n < keys.len() ==> is_trail(g, target, on_path, #[trigger] keys[n]) && keys[n].len()
            <= left && keys[n][0] < m && visits[n] == visit_of(g, target, left, tail, keys[n])
    &&& forall|a: int, b: int|
        #![trigger keys[a], keys[b]]
        0 <= a < b < keys.len() ==> comes_before(keys[a], keys[b])
    &&& forall|ks: Seq<int>| #[trigger]
        is_trail(g, target, on_path, ks) && ks.len() <= left && ks[0] < m ==> keys.contains(ks)
}

/// A place in front of a trail.
spec fn behind(k: int, ks: Seq<int>) -> Seq<int> {
    seq![k] + ks
}

proof fn lemma_behind(k: int, ks: Seq<int>)
    ensures
        behind(k, ks).len() == ks.len() + 1,
        behind(k, ks)[0] == k,
        behind(k, ks).subrange(1, ks.len() as int + 1) == ks,
        ks.len() > 0 ==> behind(k, ks).last() == ks.last(),
{
    assert(behind(k, ks).subrange(1, ks.len() as int + 1) =~= ks);
}

/// The trails that start with the pointer at place `m`, and what they complete.
proof fn lemma_one_listed(
    g: Graph,
    target: usize,
    m: int,
    left: nat,
    tail: Seq<usize>,
    on_path: Set<usize>,
) -> (keys: Seq<Seq<int>>)
    requires
        left > 0,
        !on_path.contains(target),
        0 <= m < g.ptrs.len(),
        target - g.max_offset <= g.ptrs[m].0 <= target,
    ensures
        ({
            let visits = reverse::walk_one(
                g,
                target,
                g.ptrs[m],
                left,
                tail,
                on_path.insert(target),
            );
            &&& keys.len() == visits.len()
            &&& forall|n: int|
                0 <= n < keys.len() ==> is_trail(g, target, on_path, #[trigger] keys[n])
                    && keys[n].len() <= left && keys[n][0] == m && visits[n] == visit_of(
                    g,
                    target,
                    left,
                    tail,
                    keys[n],
                )
            &&& forall|a: int, b: int|
                #![trigger keys[a], keys[b]]
                0 <= a < b < keys.len() ==> comes_before(keys[a], keys[b])
            &&& forall|ks: Seq<int>| #[trigger]
                is_trail(g, target, on_path, ks) && ks.len() <= left && ks[0] == m
                    ==> keys.contains(ks)
        }),
    decreases left, 0nat, 0nat,
{
    let e = g.ptrs[m];
    let inner = on_path.insert(target);
    let off = (target - e.0) as usize;
    let rest = seq![off] + tail;
    let one = seq![m];
    let visits = reverse::walk_one(g, target, e, left, tail, inner);
    assert(one.subrange(1, 1) =~= Seq::empty());
    assert(trail_offsets(g, e.1, one.subrange(1, 1)) =~= Seq::empty());
    assert(trail_offsets(g, target, one) =~= seq![off]);
    if is_static(g, e.1) {
        let keys = seq![one];
        assert forall|ks: Seq<int>| #[trigger]
            is_trail(g, target, on_path, ks) && ks.len() <= left && ks[0] == m implies keys.contains(
            ks,
        ) by {
            assert(ks =~= one);
            assert(keys[0] == one);
        }
        keys
    } else {
        let next = (left - 1) as nat;
        let sub = lemma_walk_listed(g, e.1, next, rest, inner);
        let deeper = reverse::walk(g, e.1, next, rest, inner);
        let keys = seq![one] + Seq::new(sub.len(), |n: int| behind(m, sub[n]));
        assert forall|n: int| 0 <= n < keys.len() implies is_trail(
            g,
            target,
            on_path,
            #[trigger] keys[n],
        ) && keys[n].len() <= left && keys[n][0] == m && visits[n] == visit_of(
            g,
            target,
            left,
            tail,
            keys[n],
        ) by {
            if n > 0 {
                let ks = sub[n - 1];
                lemma_behind(m, ks);
                assert(keys[n] == behind(m, ks));
                assert(visits[n] == deeper[n - 1]);
                assert(trail_offsets(g, target, keys[n]) + tail =~= trail_offsets(g, e.1, ks)
                    + rest);
            }
        }
        assert forall|a: int, b: int|
            #![trigger keys[a], keys[b]]
            0 <= a < b < keys.len() implies comes_before(keys[a], keys[b]) by {
            lemma_behind(m, sub[b - 1]);
            assert(keys[b] == behind(m, sub[b - 1]));
            if a == 0 {
                assert(is_trail(g, e.1, inner, sub[b - 1]));
                assert(comes_before(one.subrange(1, 1), sub[b - 1]));
            } else {
                lemma_behind(m, sub[a - 1]);
                assert(keys[a] == behind(m, sub[a - 1]));
                assert(comes_before(sub[a - 1], sub[b - 1]));
            }
        }
        assert forall|ks: Seq<int>| #[trigger]
            is_trail(g, target, on_path, ks) && ks.len() <= left && ks[0] == m implies keys.contains(
            ks,
        ) by {
            if ks.len() == 1 {
                assert(ks =~= one);
                assert(keys[0] == one);
            } else {
                let tl = ks.subrange(1, ks.len() as int);
                assert(is_trail(g, e.1, inner, tl));
                let i = choose|i: int| 0 <= i < sub.len() && sub[i] == tl;
                assert(behind(m, tl) =~= ks);
                assert(keys[i + 1] == ks);
            }
        }
        keys
    }
}

proof fn lemma_each_listed(
    g: Graph,
    target: usize,
    m: int,
    left: nat,
    tail: Seq<usize>,
    on_path: Set<usize>,
) -> (keys: Seq<Seq<int>>)
    requires
        left > 0,
        !on_path.contains(target),
        0 <= m <= g.ptrs.len(),
    ensures
        lists(
            g,
            target,
            left,
            tail,
            on_path,
            m,
            keys,
            reverse::walk_each(
                g,
                target,
                g.ptrs.take(m).filter(
                    pointers::valued(target - g.max_offset, target as int),
                ),
                left,
                tail,
                on_path.insert(target),
            ),
        ),
    decreases left, 1nat, m,
{
    reveal(Seq::filter);
    let near = pointers::valued(target - g.max_offset, target as int);
    let inner = on_path.insert(target);
    if m == 0 {
        let keys: Seq<Seq<int>> = Seq::empty();
        assert(g.ptrs.take(0).filter(near) =~= Seq::empty());
        assert forall|ks: Seq<int>| #[trigger]
            is_trail(g, target, on_path, ks) && ks.len() <= left && ks[0] < 0 implies keys.contains(
            ks,
        ) by {}
        keys
    } else {
        let k = m - 1;
        let e = g.ptrs[k];
        let before = lemma_each_listed(g, target, k, left, tail, on_path);
        let cands = g.ptrs.take(m).filter(near);
        let init = g.ptrs.take(k).filter(near);
        let seen = reverse::walk_each(g, target, init, left, tail, inner);
        let all = reverse::walk_each(g, target, cands, left, tail, inner);
        assert(g.ptrs.take(m).drop_last() =~= g.ptrs.take(k));
        assert(g.ptrs.take(m).last() == e);
        if near(e) {
            let step = lemma_one_listed(g, target, k, left, tail, on_path);
            let visits = reverse::walk_one(g, target, e, left, tail, inner);
            let keys = before + step;
            assert(cands == init.push(e));
            assert(cands.drop_last() =~= init);
            assert(all == seen + visits);
            assert forall|n: int| 0 <= n < keys.len() implies is_trail(
                g,
                target,
                on_path,
                #[trigger] keys[n],
            ) && keys[n].len() <= left && keys[n][0] < m && all[n] == visit_of(
                g,
                target,
                left,
                tail,
                keys[n],
            ) by {
                if n < before.len() {
                    assert(keys[n] == before[n] && all[n] == seen[n]);
                } else {
                    assert(keys[n] == step[n - before.len()]);
                    assert(all[n] == visits[n - before.len()]);
                }
            }
            assert forall|a: int, b: int|
                #![trigger keys[a], keys[b]]
                0 <= a < b < keys.len() implies comes_before(keys[a], keys[b]) by {
                if b < before.len() {
                    assert(keys[a] == before[a] && keys[b] == before[b]);
                } else if a >= before.len() {
                    assert(keys[a] == step[a - before.len()]);
                    assert(keys[b] == step[b - before.len()]);
                } else {
                    assert(keys[a] == before[a] && keys[b] == step[b - before.len()]);
                }
            }
            assert forall|ks: Seq<int>| #[trigger]
                is_trail(g, target, on_path, ks) && ks.len() <= left && ks[0]
                < m implies keys.contains(ks) by {
                if ks[0] < k {
                    let i = choose|i: int| 0 <= i < before.len() && before[i] == ks;
                    assert(keys[i] == ks);
                } else {
                    let i = choose|i: int| 0 <= i < step.len() && step[i] == ks;
                    assert(keys[before.len() + i] == ks);
                }
            }
            keys
        } else {
            assert(cands =~= init);
            assert forall|ks: Seq<int>| #[trigger]
                is_trail(g, target, on_path, ks) && ks.len() <= left && ks[0]
                < m implies before.contains(ks) by {
                assert(ks[0] != k);
            }
            before
        }
    }
}

proof fn lemma_walk_listed(
    g: Graph,
    target: usize,
    left: nat,
    tail: Seq<usize>,
    on_path: Set<usize>,
) -> (keys: Seq<Seq<int>>)
    ensures
        lists(
            g,
            target,
            left,
            tail,
            on_path,
            g.ptrs.len() as int,
            keys,
            reverse::walk(g, target, left, tail, on_path),
        ),
    decreases left, 2nat, 0nat,
{
    if left == 0 || on_path.contains(target) {
        Seq::empty()
    } else {
        assert(g.ptrs.take(g.ptrs.len() as int) =~= g.ptrs);
        lemma_each_listed(g, target, g.ptrs.len() as int, left, tail, on_path)
    }
}

/// A visit of a scan: the depth of the walk, and the trail to the pointer visited.
pub type Visit = (int, Seq<int>);

/// The scan to `max_depth` has this visit.
pub open spec fn is_visit(g: Graph, target: usize, max_depth: int, v: Visit) -> bool {
    1 <= v.0 <= max_depth && v.1.len() <= v.0 && is_trail(g, target, Set::empty(), v.1)
}

/// The scan comes to `a` before `b`: in a walk of less depth, or in the same walk, pointers in the
/// order of the map.
pub open spec fn visited_before(a: Visit, b: Visit) -> bool {
    a.0 < b.0 || (a.0 == b.0 && comes_before(a.1, b.1))
}

/// The visit ends a route of the depth of its walk.
pub open spec fn ends_a_route(g: Graph, v: Visit) -> bool {
    v.1.len() == v.0 && is_static(g, g.ptrs[v.1.last()].1)
}

spec fn visit_result(g: Graph, target: usize, v: Visit) -> Option<Route> {
    visit_of(g, target, v.0 as nat, Seq::empty(), v.1)
}

spec fn lists_all(
    g: Graph,
    target: usize,
    depth: nat,
    keys: Seq<Visit>,
    visits: Seq<Option<Route>>,
) -> bool {
    &&& keys.len() == visits.len()
    &&& forall|n: int|
        0 <= n < keys.len() ==> is_visit(g, target, depth as int, #[trigger] keys[n]) && visits[n]
            == visit_result(g, target, keys[n])
    &&& forall|a: int, b: int|
        #![trigger keys[a], keys[b]]
        0 <= a < b < keys.len() ==> visited_before(keys[a], keys[b])
    &&& forall|v: Visit| #[trigger]
        is_visit(g, target, depth as int, v) ==> keys.contains(v)
}

proof fn lemma_visits_listed(g: Graph, target: usize, depth: nat) -> (keys: Seq<Visit>)
    ensures
        lists_all(g, target, depth, keys, reverse::visits_to(g, target, depth)),
    decreases depth,
{
    if depth == 0 {
        Seq::empty()
    } else {
        let prev = (depth - 1) as nat;
        let before = lemma_visits_listed(g, target, prev);
        let step = lemma_walk_listed(g, target, depth, Seq::empty(), Set::empty());
        let seen = reverse::visits_to(g, target, prev);
        let visits = reverse::walk(g, target, depth, Seq::empty(), Set::empty());
        let all = reverse::visits_to(g, target, depth);
        let keys = before + Seq::new(step.len(), |n: int| (depth as int, step[n]));
        assert forall|n: int| 0 <= n < keys.len() implies is_visit(
            g,
            target,
            depth as int,
            #[trigger] keys[n],
        ) && all[n] == visit_result(g, target, keys[n]) by {
            if n < before.len() {
                assert(keys[n] == before[n] && all[n] == seen[n]);
                assert(is_visit(g, target, prev as int, before[n]));
            } else {
                let i = n - before.len();
                assert(keys[n] == (depth as int, step[i]) && all[n] == visits[i]);
                assert(is_trail(g, target, Set::empty(), step[i]));
            }
        }
        assert forall|a: int, b: int|
            #![trigger keys[a], keys[b]]
            0 <= a < b < keys.len() implies visited_before(keys[a], keys[b]) by {
            if b < before.len() {
                assert(keys[a] == before[a] && keys[b] == before[b]);
            } else {
                assert(keys[b] == (depth as int, step[b - before.len()]));
                if a < before.len() {
                    assert(keys[a] == before[a]);
                    assert(is_visit(g, target, prev as int, before[a]));
                } else {
                    assert(keys[a] == (depth as int, step[a - before.len()]));
                    assert(comes_before(step[a - before.len()], step[b - before.len()]));
                }
            }
        }
        assert forall|v: Visit| #[trigger] is_visit(
            g,
            target,
            depth as int,
            v,
        ) implies keys.contains(v) by {
            if v.0 < depth {
                assert(is_visit(g, target, prev as int, v));
                let i = choose|i: int| 0 <= i < before.len() && before[i] == v;
                assert(keys[i] == v);
            } else {
                assert(is_trail(g, target, Set::empty(), v.1));
                let i = choose|i: int| 0 <= i < step.len() && step[i] == v.1;
                assert(keys[before.len() + i] == v);
            }
        }
        keys
    }
}

pub(crate) proof fn lemma_before_is_strict(a: Seq<int>, b: Seq<int>)
    ensures
        comes_before(a, b) ==> a != b && !comes_before(b, a),
    decreases a.len(),
{
    if a.len() > 0 && b.len() > 0 {
        lemma_before_is_strict(a.subrange(1, a.len() as int), b.subrange(1, b.len() as int));
    }
}

proof fn lemma_visits_are_strict(a: Visit, b: Visit)
    ensures
        visited_before(a, b) ==> a != b && !visited_before(b, a),
{
    lemma_before_is_strict(a.1, b.1);
}

/// Where visits are listed in order, those up to the `n`-th are those at or before it.
proof fn lemma_listed_up_to(
    g: Graph,
    target: usize,
    depth: nat,
    keys: Seq<Visit>,
    visits: Seq<Option<Route>>,
    n: int,
    u: Visit,
)
    requires
        lists_all(g, target, depth, keys, visits),
        0 <= n < keys.len(),
        is_visit(g, target, depth as int, u),
        u == keys[n] || visited_before(u, keys[n]),
    ensures
        keys.take(n + 1).contains(u),
        u != keys[n] ==> keys.take(n).contains(u),
{
    let i = choose|i: int| 0 <= i < keys.len() && keys[i] == u;
    lemma_visits_are_strict(u, keys[n]);
    if i > n {
        assert(visited_before(keys[n], keys[i]));
    }
    assert(keys.take(n + 1)[i] == u);
    if u != keys[n] {
        assert(keys.take(n)[i] == u);
    }
}

proof fn lemma_listed_once(
    g: Graph,
    target: usize,
    depth: nat,
    keys: Seq<Visit>,
    visits: Seq<Option<Route>>,
)
    requires
        lists_all(g, target, depth, keys, visits),
    ensures
        keys.no_duplicates(),
{
    assert forall|a: int, b: int| 0 <= a < keys.len() && 0 <= b < keys.len() && a != b implies keys[a]
        != keys[b] by {
        lemma_visits_are_strict(keys[a], keys[b]);
        lemma_visits_are_strict(keys[b], keys[a]);
        if a < b {
            assert(visited_before(keys[a], keys[b]));
        } else {
            assert(visited_before(keys[b], keys[a]));
        }
    }
}

/// A sequence without duplicates, all of it in a set, is no longer than the set.
pub(crate) proof fn lemma_fits_in<T>(s: Seq<T>, set: Set<T>)
    requires
        s.no_duplicates(),
        set.finite(),
        forall|i: int| 0 <= i < s.len() ==> set.contains(#[trigger] s[i]),
    ensures
        s.len() <= set.len(),
{
    s.unique_seq_to_set();
    assert(s.to_set().subset_of(set)) by {
        assert forall|x: T| s.to_set().contains(x) implies set.contains(x) by {
            let i = choose|i: int| 0 <= i < s.len() && s[i] == x;
            assert(set.contains(s[i]));
        }
    }
    vstd::set_lib::lemma_len_subset(s.to_set(), set);
}

/// A set, all of it in a sequence, has no more elements than the sequence.
pub(crate) proof fn lemma_fits_around<T>(set: Set<T>, s: Seq<T>)
    requires
        set.finite(),
        forall|x: T| #[trigger] set.contains(x) ==> s.contains(x),
    ensures
        set.len() <= s.len(),
{
    assert(set.subset_of(s.to_set()));
    s.lemma_cardinality_of_set();
    vstd::set_lib::lemma_len_subset(set, s.to_set());
}

spec fn ending(g: Graph) -> spec_fn(Visit) -> bool {
    |v: Visit| ends_a_route(g, v)
}

/// The routes completed are as many as the visits that end one.
proof fn lemma_completed_count(
    g: Graph,
    target: usize,
    keys: Seq<Visit>,
    visits: Seq<Option<Route>>,
    n: int,
)
    requires
        keys.len() == visits.len(),
        0 <= n <= keys.len(),
        forall|i: int|
            0 <= i < keys.len() ==> #[trigger] visits[i] == visit_result(g, target, keys[i])
                && keys[i].0 >= 0,
    ensures
        reverse::completed(visits.take(n)).len() == keys.take(n).filter(ending(g)).len(),
    decreases n,
{
    reveal(Seq::filter);
    if n > 0 {
        lemma_completed_count(g, target, keys, visits, n - 1);
        assert(visits.take(n).drop_last() =~= visits.take(n - 1));
        assert(keys.take(n).drop_last() =~= keys.take(n - 1));
        assert(visits[n - 1] == visit_result(g, target, keys[n - 1]));
    } else {
        assert(reverse::completed(visits.take(0)) =~= Seq::empty());
        assert(keys.take(0).filter(ending(g)) =~= Seq::empty());
    }
}

/// The route that a visit completes stands behind those completed before.
proof fn lemma_completed_at(visits: Seq<Option<Route>>, n: int)
    requires
        0 <= n < visits.len(),
        visits[n] is Some,
    ensures
        reverse::completed(visits.take(n)).len() < reverse::completed(visits).len(),
        reverse::completed(visits)[reverse::completed(visits.take(n)).len() as int]
            == visits[n]->Some_0,
    decreases visits.len(),
{
    let init = visits.drop_last();
    if n < init.len() {
        lemma_completed_at(init, n);
        assert(init.take(n) =~= visits.take(n));
    } else {
        assert(visits.take(n) =~= init);
    }
}

proof fn lemma_completed_from(visits: Seq<Option<Route>>, p: int) -> (n: int)
    requires
        0 <= p < reverse::completed(visits).len(),
    ensures
        0 <= n < visits.len(),
        visits[n] == Some(reverse::completed(visits)[p]),
        reverse::completed(visits.take(n)).len() == p,
    decreases visits.len(),
{
    let init = visits.drop_last();
    let part = reverse::completed(init);
    if p < part.len() {
        let n = lemma_completed_from(init, p);
        assert(init.take(n) =~= visits.take(n));
        n
    } else {
        let n = visits.len() - 1;
        assert(visits.take(n) =~= init);
        n
    }
}

/// A scan finds every route to which it comes within its bounds. The route `r` is made by the visit
/// `v`; `upto` has every visit that the scan comes to up to that one, and they are fewer than the
/// node budget; `routes` has those of them before it that end a route, and they are fewer than the
/// cap on results.
pub proof fn routes_within_bounds_are_found(
    g: Graph,
    target: usize,
    opts: ScanOpts,
    found: Seq<Route>,
    v: Visit,
    r: Route,
    upto: Set<Visit>,
    routes: Set<Visit>,
)
    requires
        reverse::scan_yields(g, target, opts, found),
        is_visit(g, target, opts.max_depth as int, v),
        makes(g, target, v.0, v.1, r),
        upto.finite(),
        routes.finite(),
        forall|u: Visit| #[trigger]
            is_visit(g, target, opts.max_depth as int, u) && (u == v || visited_before(u, v))
                ==> upto.contains(u),
        forall|u: Visit| #[trigger]
            is_visit(g, target, opts.max_depth as int, u) && visited_before(u, v) && ends_a_route(
                g,
                u,
            ) ==> routes.contains(u),
        upto.len() < opts.node_budget,
        routes.len() < opts.max_results,
    ensures
        found.contains(r),
{
    let depth = opts.max_depth as nat;
    let visits = reverse::visits_to(g, target, depth);
    let keys = lemma_visits_listed(g, target, depth);
    let n = choose|n: int| 0 <= n < keys.len() && keys[n] == v;
    lemma_listed_once(g, target, depth, keys, visits);
    let early = keys.take(n + 1);
    assert forall|i: int| 0 <= i < early.len() implies upto.contains(#[trigger] early[i]) by {
        assert(early[i] == keys[i]);
        if i < n {
            assert(visited_before(keys[i], keys[n]));
        }
        assert(is_visit(g, target, depth as int, keys[i]));
    }
    assert(early.no_duplicates());
    lemma_fits_in(early, upto);
    let kept = reverse::first(visits, opts.node_budget - 1);
    assert(kept[n] == visits[n]);
    assert(trail_offsets(g, target, v.1) + Seq::empty() =~= trail_offsets(g, target, v.1));
    assert(visits[n] == Some(r));
    lemma_completed_at(kept, n);
    assert(kept.take(n) =~= visits.take(n));
    lemma_completed_count(g, target, keys, visits, n);
    let ends = keys.take(n).filter(ending(g));
    assert forall|i: int| 0 <= i < ends.len() implies routes.contains(#[trigger] ends[i]) by {
        keys.take(n).lemma_filter_pred(ending(g), i);
        assert(ends.contains(ends[i]));
        keys.take(n).lemma_filter_contains_rev(ending(g), ends[i]);
        let k = choose|k: int| 0 <= k < keys.take(n).len() && keys.take(n)[k] == ends[i];
        assert(keys[k] == ends[i]);
        assert(visited_before(keys[k], keys[n]));
        assert(is_visit(g, target, depth as int, keys[k]));
    }
    assert(keys.take(n).no_duplicates());
    lemma_filter_no_duplicates(keys.take(n), ending(g));
    lemma_fits_in(ends, routes);
    let p = reverse::completed(kept.take(n)).len() as int;
    let c = reverse::collected(g, target, opts);
    assert(c[p] == r);
    chain::lemma_scan_members(g, target, opts, found, r);
}

pub(crate) proof fn lemma_filter_no_duplicates<T>(s: Seq<T>, keep: spec_fn(T) -> bool)
    requires
        s.no_duplicates(),
    ensures
        s.filter(keep).no_duplicates(),
    decreases s.len(),
{
    reveal(Seq::filter);
    if s.len() > 0 {
        let init = s.drop_last();
        lemma_filter_no_duplicates(init, keep);
        let part = init.filter(keep);
        let all = s.filter(keep);
        if keep(s.last()) && part.contains(s.last()) {
            init.lemma_filter_contains_rev(keep, s.last());
            let i = choose|i: int| 0 <= i < init.len() && init[i] == s.last();
            assert(s[i] == s[s.len() - 1]);
        }
        assert forall|i: int, j: int|
            0 <= i < all.len() && 0 <= j < all.len() && i != j implies all[i] != all[j] by {
            if i < part.len() {
                assert(part.contains(part[i]));
            }
            if j < part.len() {
                assert(part.contains(part[j]));
            }
        }
    }
}

/// A scan finds no route but those to which it comes within its bounds: one that it finds is made by
/// some visit up to which it has fewer than the node budget, with fewer routes before it than the
/// cap on results.
pub proof fn found_routes_lie_within_bounds(
    g: Graph,
    target: usize,
    opts: ScanOpts,
    found: Seq<Route>,
    r: Route,
) -> (v: Visit)
    requires
        reverse::scan_yields(g, target, opts, found),
        found.contains(r),
    ensures
        is_visit(g, target, opts.max_depth as int, v),
        makes(g, target, v.0, v.1, r),
        forall|upto: Set<Visit>|
            upto.finite() && (forall|u: Visit| #[trigger]
                upto.contains(u) ==> is_visit(g, target, opts.max_depth as int, u) && (u == v
                    || visited_before(u, v))) ==> #[trigger] upto.len() < opts.node_budget,
        forall|routes: Set<Visit>|
            routes.finite() && (forall|u: Visit| #[trigger]
                routes.contains(u) ==> is_visit(g, target, opts.max_depth as int, u)
                    && visited_before(u, v) && ends_a_route(g, u)) ==> #[trigger] routes.len()
                < opts.max_results,
{
    let depth = opts.max_depth as nat;
    let visits = reverse::visits_to(g, target, depth);
    let keys = lemma_visits_listed(g, target, depth);
    let kept = reverse::first(visits, opts.node_budget - 1);
    let c = reverse::collected(g, target, opts);
    chain::lemma_scan_members(g, target, opts, found, r);
    let p = choose|p: int| 0 <= p < c.len() && c[p] == r;
    assert(reverse::completed(kept)[p] == r);
    let n = lemma_completed_from(kept, p);
    assert(visits[n] == kept[n]);
    assert(kept.take(n) =~= visits.take(n));
    let v = keys[n];
    lemma_completed_count(g, target, keys, visits, n);
    assert(trail_offsets(g, target, v.1) + Seq::empty() =~= trail_offsets(g, target, v.1));
    assert forall|upto: Set<Visit>|
        upto.finite() && (forall|u: Visit| #[trigger]
            upto.contains(u) ==> is_visit(g, target, opts.max_depth as int, u) && (u == v
                || visited_before(u, v))) implies #[trigger] upto.len() < opts.node_budget by {
        assert forall|u: Visit| #[trigger] upto.contains(u) implies keys.take(n + 1).contains(
            u,
        ) by {
            lemma_listed_up_to(g, target, depth, keys, visits, n, u);
        }
        lemma_fits_around(upto, keys.take(n + 1));
    }
    assert forall|routes: Set<Visit>|
        routes.finite() && (forall|u: Visit| #[trigger]
            routes.contains(u) ==> is_visit(g, target, opts.max_depth as int, u) && visited_before(
                u,
                v,
            ) && ends_a_route(g, u)) implies #[trigger] routes.len() < opts.max_results by {
        let ends = keys.take(n).filter(ending(g));
        assert forall|u: Visit| #[trigger] routes.contains(u) implies ends.contains(u) by {
            lemma_visits_are_strict(u, v);
            lemma_listed_up_to(g, target, depth, keys, visits, n, u);
            let k = choose|k: int| 0 <= k < keys.take(n).len() && keys.take(n)[k] == u;
            keys.take(n).lemma_filter_contains(ending(g), k);
        }
        lemma_fits_around(routes, ends);
    }
    v
}

/// Every chain from the image to the target is the trail of some visit.
pub proof fn chains_are_trails(
    g: Graph,
    target: usize,
    max_depth: int,
    r: Route,
    locs: Seq<usize>,
) -> (v: Visit)
    requires
        chain::leads_to(g, r, locs, target),
        r.1.len() <= max_depth,
    ensures
        is_visit(g, target, max_depth, v),
        v.0 == r.1.len(),
        makes(g, target, v.0, v.1, r),
{
    let depth = r.1.len();
    let visits = reverse::walk(g, target, depth, Seq::empty(), Set::empty());
    let keys = lemma_walk_listed(g, target, depth, Seq::empty(), Set::empty());
    chain::lemma_walk_complete(g, target, locs, r.1, Seq::empty(), Set::empty());
    assert(r.1 + Seq::empty() =~= r.1);
    assert(((locs[0] - g.image.base) as usize, r.1) == r);
    let n = choose|n: int| 0 <= n < visits.len() && visits[n] == Some(r);
    let ks = keys[n];
    assert(visits[n] == visit_of(g, target, depth, Seq::empty(), ks));
    assert(trail_offsets(g, target, ks) + Seq::empty() =~= trail_offsets(g, target, ks));
    (depth as int, ks)
}

/// Where the visits of a scan are fewer than the node budget, and those that end a route no more
/// than the cap on results, the scan finds the route of every chain from the image to the target.
pub proof fn all_routes_are_found(
    g: Graph,
    target: usize,
    opts: ScanOpts,
    found: Seq<Route>,
    r: Route,
    locs: Seq<usize>,
    visits: Set<Visit>,
    routes: Set<Visit>,
)
    requires
        reverse::scan_yields(g, target, opts, found),
        chain::leads_to(g, r, locs, target),
        r.1.len() <= opts.max_depth,
        visits.finite(),
        routes.finite(),
        forall|u: Visit| #[trigger]
            is_visit(g, target, opts.max_depth as int, u) ==> visits.contains(u),
        forall|u: Visit| #[trigger]
            is_visit(g, target, opts.max_depth as int, u) && ends_a_route(g, u)
                ==> routes.contains(u),
        visits.len() < opts.node_budget,
        routes.len() <= opts.max_results,
    ensures
        found.contains(r),
{
    let v = chains_are_trails(g, target, opts.max_depth as int, r, locs);
    let others = routes.remove(v);
    assert forall|u: Visit| #[trigger]
        is_visit(g, target, opts.max_depth as int, u) && visited_before(u, v) && ends_a_route(
            g,
            u,
        ) implies others.contains(u) by {
        lemma_visits_are_strict(u, v);
    }
    assert(routes.contains(v));
    routes_within_bounds_are_found(g, target, opts, found, v, r, visits, others);
}

/// Where no location stands in the map twice, a route is made by one trail only.
proof fn lemma_trail_once(
    g: Graph,
    t: usize,
    u: usize,
    on_a: Set<usize>,
    on_b: Set<usize>,
    a: Seq<int>,
    b: Seq<int>,
)
    requires
        chain::located_once(g.ptrs),
        is_trail(g, t, on_a, a),
        is_trail(g, u, on_b, b),
        a.len() == b.len(),
        g.ptrs[a.last()].1 == g.ptrs[b.last()].1,
        trail_offsets(g, t, a) == trail_offsets(g, u, b),
    ensures
        a == b,
        t == u,
    decreases a.len(),
{
    let e = g.ptrs[a[0]];
    let f = g.ptrs[b[0]];
    let a2 = a.subrange(1, a.len() as int);
    let b2 = b.subrange(1, b.len() as int);
    let oa = trail_offsets(g, e.1, a2);
    let ob = trail_offsets(g, f.1, b2);
    assert(trail_offsets(g, t, a) == oa.push((t - e.0) as usize));
    assert(trail_offsets(g, u, b) == ob.push((u - f.0) as usize));
    assert(oa.push((t - e.0) as usize).last() == (t - e.0) as usize);
    assert(ob.push((u - f.0) as usize).last() == (u - f.0) as usize);
    assert(oa.push((t - e.0) as usize).drop_last() =~= oa);
    assert(ob.push((u - f.0) as usize).drop_last() =~= ob);
    if a.len() > 1 {
        assert(a2.last() == a.last() && b2.last() == b.last());
        lemma_trail_once(g, e.1, f.1, on_a.insert(t), on_b.insert(u), a2, b2);
    } else {
        assert(a.last() == a[0] && b.last() == b[0]);
    }
    assert(e.1 == f.1);
    assert(a[0] == b[0]) by {
        if a[0] < b[0] {
            assert(g.ptrs[a[0]].1 != g.ptrs[b[0]].1);
        } else if b[0] < a[0] {
            assert(g.ptrs[b[0]].1 != g.ptrs[a[0]].1);
        }
    }
    assert(a =~= seq![a[0]] + a2);
    assert(b =~= seq![b[0]] + b2);
}

/// Two elements of a sequence keep their order under a filter.
proof fn lemma_filter_index<T>(s: Seq<T>, keep: spec_fn(T) -> bool, i: int) -> (k: int)
    requires
        0 <= i < s.len(),
        keep(s[i]),
    ensures
        0 <= k < s.filter(keep).len(),
        s.filter(keep)[k] == s[i],
        k == s.take(i).filter(keep).len(),
    decreases s.len(),
{
    reveal(Seq::filter);
    let init = s.drop_last();
    if i < init.len() {
        let k = lemma_filter_index(init, keep, i);
        assert(init.take(i) =~= s.take(i));
        k
    } else {
        assert(s.take(i) =~= init);
        init.filter(keep).len() as int
    }
}

proof fn lemma_filter_grows<T>(s: Seq<T>, keep: spec_fn(T) -> bool, i: int, j: int)
    requires
        0 <= i < j <= s.len(),
        keep(s[i]),
    ensures
        s.take(i).filter(keep).len() < s.take(j).filter(keep).len(),
    decreases j,
{
    reveal(Seq::filter);
    assert(s.take(j).drop_last() =~= s.take(j - 1));
    if i < j - 1 {
        lemma_filter_grows(s, keep, i, j - 1);
    }
}

/// Routes of one rank are found in the order in which the scan comes to them.
pub proof fn ties_keep_the_order_of_visits(
    g: Graph,
    target: usize,
    opts: ScanOpts,
    found: Seq<Route>,
    v: Visit,
    w: Visit,
    i: int,
    j: int,
)
    requires
        chain::located_once(g.ptrs),
        reverse::scan_yields(g, target, opts, found),
        is_visit(g, target, opts.max_depth as int, v),
        is_visit(g, target, opts.max_depth as int, w),
        0 <= i < found.len(),
        0 <= j < found.len(),
        makes(g, target, v.0, v.1, found[i]),
        makes(g, target, w.0, w.1, found[j]),
        visited_before(v, w),
        found[i].1.len() == found[j].1.len(),
        found[i].1.fold_left(0int, |sum: int, o: usize| sum + o) == found[j].1.fold_left(
            0int,
            |sum: int, o: usize| sum + o,
        ),
        found[i].0 == found[j].0,
    ensures
        i < j,
{
    let rank = path::route_rank();
    let depth = opts.max_depth as nat;
    let visits = reverse::visits_to(g, target, depth);
    let keys = lemma_visits_listed(g, target, depth);
    let kept = reverse::first(visits, opts.node_budget - 1);
    let c = reverse::collected(g, target, opts);
    let r = found[i];
    let s = found[j];
    chain::scan_has_no_duplicates(g, target, opts, found);
    assert(found.contains(r) && found.contains(s));
    chain::lemma_scan_members(g, target, opts, found, r);
    chain::lemma_scan_members(g, target, opts, found, s);
    let p = choose|p: int| 0 <= p < c.len() && c[p] == r;
    let q = choose|q: int| 0 <= q < c.len() && c[q] == s;
    let n = lemma_completed_from(kept, p);
    let m = lemma_completed_from(kept, q);
    assert(visits[n] == kept[n] && visits[m] == kept[m]);
    lemma_same_visit(g, target, depth, keys[n], v, r);
    lemma_same_visit(g, target, depth, keys[m], w, s);
    lemma_visits_are_strict(v, w);
    if m <= n {
        if m < n {
            assert(visited_before(keys[m], keys[n]));
        }
        assert(false);
    }
    assert(p < q) by {
        if q <= p {
            assert(kept.take(m).take(n) =~= kept.take(n));
            lemma_completed_at(kept.take(m), n);
        }
    }
    let sorted = choose|sorted: Seq<Route>| #[trigger]
        sort::stable_sort_of(c, sorted, rank) && found == sort::without_repeats(sorted);
    chain::lemma_collected_once(g, target, opts);
    chain::lemma_sorted_once(c, sorted, rank);
    assert(found == sorted);
    meaning::routes_rank_by_depth_sum_and_start(r, s);
    meaning::routes_rank_by_depth_sum_and_start(s, r);
    let keep = sort::has_rank(rank, rank(r));
    assert(rank(r) == rank(s));
    let kp = lemma_filter_index(c, keep, p);
    let kq = lemma_filter_index(c, keep, q);
    let ki = lemma_filter_index(found, keep, i);
    let kj = lemma_filter_index(found, keep, j);
    assert(sort::with_rank(found, rank, rank(r)) == sort::with_rank(c, rank, rank(r)));
    lemma_filter_grows(c, keep, p, q);
    lemma_filter_no_duplicates(c, keep);
    assert(c.filter(keep)[ki] == c.filter(keep)[kp]);
    assert(c.filter(keep)[kj] == c.filter(keep)[kq]);
    assert(ki == kp && kj == kq);
    if j < i {
        lemma_filter_grows(found, keep, j, i);
    }
}

/// A route is made by one visit only.
proof fn lemma_same_visit(g: Graph, target: usize, depth: nat, a: Visit, b: Visit, r: Route)
    requires
        chain::located_once(g.ptrs),
        is_visit(g, target, depth as int, a),
        is_visit(g, target, depth as int, b),
        visit_result(g, target, a) == Some(r),
        makes(g, target, b.0, b.1, r),
    ensures
        a == b,
{
    assert(trail_offsets(g, target, a.1) + Seq::empty() =~= trail_offsets(g, target, a.1));
    lemma_offsets_length(g, target, a.1);
    lemma_offsets_length(g, target, b.1);
    lemma_trail_once(g, target, target, Set::empty(), Set::empty(), a.1, b.1);
}

proof fn lemma_offsets_length(g: Graph, target: usize, ks: Seq<int>)
    ensures
        trail_offsets(g, target, ks).len() == ks.len(),
    decreases ks.len(),
{
    if ks.len() > 0 {
        lemma_offsets_length(g, g.ptrs[ks[0]].1, ks.subrange(1, ks.len() as int));
    }
}

/// What a scan yields is sorted: by the number of dereferences, then by the sum of the offsets, then
/// by where it starts.
pub proof fn found_routes_are_sorted(
    g: Graph,
    target: usize,
    opts: ScanOpts,
    found: Seq<Route>,
    i: int,
    j: int,
)
    requires
        reverse::scan_yields(g, target, opts, found),
        0 <= i < j < found.len(),
    ensures
        ({
            let a = found[i];
            let b = found[j];
            let sum_a = a.1.fold_left(0int, |sum: int, o: usize| sum + o);
            let sum_b = b.1.fold_left(0int, |sum: int, o: usize| sum + o);
            a.1.len() < b.1.len() || (a.1.len() == b.1.len() && (sum_a < sum_b || (sum_a == sum_b
                && a.0 <= b.0)))
        }),
        j == i + 1 ==> found[i] != found[j],
{
    let rank = path::route_rank();
    chain::scan_is_ordered(g, target, opts, found);
    assert(found.contains(found[i]) && found.contains(found[j]));
    chain::scan_is_sound(g, target, opts, found, found[i]);
    chain::scan_is_sound(g, target, opts, found, found[j]);
    assert(sort::rank_le(rank(found[i]), rank(found[j])));
    meaning::routes_rank_by_depth_sum_and_start(found[i], found[j]);
    let c = reverse::collected(g, target, opts);
    let sorted = choose|sorted: Seq<Route>| #[trigger]
        sort::stable_sort_of(c, sorted, rank) && found == sort::without_repeats(sorted);
    sort::without_repeats_keeps_values(sorted, rank);
}

} // verus!
