//! Pointer chains, and what the reverse scan has to do with them.
use crate::path;
use crate::path::{Route, ScanOpts};
use crate::pointers;
use crate::pointers::Pointer;
use crate::procmem::ProcMem;
use crate::resolve;
use crate::reverse;
use crate::reverse::Graph;
use crate::sort;
use crate::task::Kernel;
use vstd::prelude::*;

verus! {

/// The address that the `i`-th pointer of a chain has to lead to: the next location, or the target.
pub open spec fn next_stop(locs: Seq<usize>, target: usize, i: int) -> usize {
    if i + 1 < locs.len() {
        locs[i + 1]
    } else {
        target
    }
}

/// The `i`-th location holds a pointer that, plus the `i`-th offset, leads to the next stop.
pub open spec fn links(
    ptrs: Seq<Pointer>,
    locs: Seq<usize>,
    offsets: Seq<usize>,
    target: usize,
    i: int,
) -> bool {
    offsets[i] <= next_stop(locs, target, i) && ptrs.contains(
        ((next_stop(locs, target, i) - offsets[i]) as u64, locs[i]),
    )
}

/// Each location holds a pointer that, plus the offset of the same place, leads to the next
/// location, and the last one to the target.
pub open spec fn is_chain(
    ptrs: Seq<Pointer>,
    locs: Seq<usize>,
    offsets: Seq<usize>,
    target: usize,
) -> bool {
    &&& locs.len() == offsets.len()
    &&& locs.len() > 0
    &&& forall|i: int| 0 <= i < locs.len() ==> #[trigger] links(ptrs, locs, offsets, target, i)
}

/// A chain that a walk back from `target` can take: it starts in the image and leaves it at once,
/// keeps to the largest offset, comes by no address twice, and by none of `on_path`.
pub open spec fn is_walk(
    g: Graph,
    locs: Seq<usize>,
    offsets: Seq<usize>,
    target: usize,
    on_path: Set<usize>,
) -> bool {
    &&& is_chain(g.ptrs, locs, offsets, target)
    &&& g.image.holds(locs[0])
    &&& forall|i: int| 0 <= i < offsets.len() ==> #[trigger] offsets[i] <= g.max_offset
    &&& forall|i: int|
        1 <= i < locs.len() ==> !g.image.holds(#[trigger] locs[i]) && locs[i] != target
            && !on_path.contains(locs[i])
    &&& forall|i: int, j: int|
        #![trigger locs[i], locs[j]]
        1 <= i < j < locs.len() ==> locs[i] != locs[j]
}

/// The route `r` leads through the locations `locs` to `target`.
pub open spec fn leads_to(g: Graph, r: Route, locs: Seq<usize>, target: usize) -> bool {
    is_walk(g, locs, r.1, target, Set::empty()) && locs[0] == g.image.base + r.0
}

/// A chain that comes by an address twice can be cut: what lies between goes.
pub(crate) proof fn lemma_cut(
    ptrs: Seq<Pointer>,
    locs: Seq<usize>,
    offsets: Seq<usize>,
    target: usize,
    i: int,
    j: int,
)
    requires
        is_chain(ptrs, locs, offsets, target),
        1 <= i < j <= locs.len(),
        next_stop(locs, target, i - 1) == next_stop(locs, target, j - 1),
    ensures
        is_chain(
            ptrs,
            locs.take(i) + locs.skip(j),
            offsets.take(i) + offsets.skip(j),
            target,
        ),
{
    let l2 = locs.take(i) + locs.skip(j);
    let o2 = offsets.take(i) + offsets.skip(j);
    assert forall|m: int| 0 <= m < l2.len() implies #[trigger] links(ptrs, l2, o2, target, m) by {
        let n = if m < i {
            m
        } else {
            m - i + j
        };
        assert(links(ptrs, locs, offsets, target, n));
        assert(l2[m] == locs[n] && o2[m] == offsets[n]);
        assert(next_stop(l2, target, m) == next_stop(locs, target, n));
    }
}

/// From any of its locations on, a chain is one too.
pub(crate) proof fn lemma_chain_from(
    ptrs: Seq<Pointer>,
    locs: Seq<usize>,
    offsets: Seq<usize>,
    target: usize,
    i: int,
)
    requires
        is_chain(ptrs, locs, offsets, target),
        0 <= i < locs.len(),
    ensures
        is_chain(ptrs, locs.skip(i), offsets.skip(i), target),
{
    let l2 = locs.skip(i);
    let o2 = offsets.skip(i);
    assert forall|m: int| 0 <= m < l2.len() implies #[trigger] links(ptrs, l2, o2, target, m) by {
        assert(links(ptrs, locs, offsets, target, i + m));
        assert(next_stop(l2, target, m) == next_stop(locs, target, i + m));
    }
}

/// A walk adds one location behind a shorter walk.
proof fn lemma_walk_extend(
    g: Graph,
    locs: Seq<usize>,
    offsets: Seq<usize>,
    e: Pointer,
    target: usize,
    on_path: Set<usize>,
)
    requires
        is_walk(g, locs, offsets, e.1, on_path.insert(target)),
        g.ptrs.contains(e),
        target - g.max_offset <= e.0 <= target,
        !g.image.holds(e.1),
        e.1 != target,
        !on_path.contains(e.1),
    ensures
        is_walk(g, locs.push(e.1), offsets.push((target - e.0) as usize), target, on_path),
{
    let l2 = locs.push(e.1);
    let o2 = offsets.push((target - e.0) as usize);
    assert forall|i: int| 0 <= i < l2.len() implies #[trigger] links(g.ptrs, l2, o2, target, i) by {
        if i < locs.len() {
            assert(links(g.ptrs, locs, offsets, e.1, i));
            assert(l2[i] == locs[i]);
            assert(next_stop(l2, target, i) == next_stop(locs, e.1, i));
        } else {
            assert((target - (target - e.0) as usize) as u64 == e.0);
        }
    }
    assert forall|i: int| 0 <= i < o2.len() implies #[trigger] o2[i] <= g.max_offset by {
        if i < offsets.len() {
            assert(o2[i] == offsets[i]);
        }
    }
    assert forall|i: int| 1 <= i < l2.len() implies !g.image.holds(#[trigger] l2[i]) && l2[i]
        != target && !on_path.contains(l2[i]) by {
        if i < locs.len() {
            assert(l2[i] == locs[i]);
        }
    }
    assert forall|i: int, j: int|
        #![trigger l2[i], l2[j]]
        1 <= i < j < l2.len() implies l2[i] != l2[j] by {
        assert(l2[i] == locs[i]);
        if j < locs.len() {
            assert(l2[j] == locs[j]);
        }
    }
}

/// Candidates stand in the map, and in reach.
proof fn lemma_candidates_are_near(g: Graph, target: usize)
    ensures
        forall|k: int|
            0 <= k < g.candidates(target).len() ==> g.ptrs.contains(
                #[trigger] g.candidates(target)[k],
            ) && target - g.max_offset <= g.candidates(target)[k].0 <= target,
{
    let cands = g.candidates(target);
    let near = pointers::valued(target - g.max_offset, target as int);
    assert forall|k: int| 0 <= k < cands.len() implies g.ptrs.contains(#[trigger] cands[k])
        && target - g.max_offset <= cands[k].0 <= target by {
        g.ptrs.lemma_filter_pred(near, k);
        assert(cands.contains(cands[k]));
        g.ptrs.lemma_filter_contains_rev(near, cands[k]);
    }
}

/// Every route that a walk completes comes from a chain.
proof fn lemma_walk_sound(
    g: Graph,
    target: usize,
    left: nat,
    tail: Seq<usize>,
    on_path: Set<usize>,
    n: int,
) -> (locs: Seq<usize>)
    requires
        0 <= n < reverse::walk(g, target, left, tail, on_path).len(),
        reverse::walk(g, target, left, tail, on_path)[n] is Some,
    ensures
        ({
            let r = reverse::walk(g, target, left, tail, on_path)[n]->Some_0;
            let offsets = r.1.take(left as int);
            &&& r.1.len() == left + tail.len()
            &&& r.1 == offsets + tail
            &&& locs.len() == left
            &&& !on_path.contains(target)
            &&& is_walk(g, locs, offsets, target, on_path)
            &&& locs[0] == g.image.base + r.0
        }),
    decreases left, 1nat, 0nat,
{
    let cands = g.candidates(target);
    lemma_candidates_are_near(g, target);
    lemma_walk_each_sound(g, target, cands, left, tail, on_path, n)
}

proof fn lemma_walk_each_sound(
    g: Graph,
    target: usize,
    cands: Seq<Pointer>,
    left: nat,
    tail: Seq<usize>,
    on_path: Set<usize>,
    n: int,
) -> (locs: Seq<usize>)
    requires
        left > 0,
        !on_path.contains(target),
        forall|k: int|
            0 <= k < cands.len() ==> g.ptrs.contains(#[trigger] cands[k]) && target - g.max_offset
                <= cands[k].0 <= target,
        0 <= n < reverse::walk_each(g, target, cands, left, tail, on_path.insert(target)).len(),
        reverse::walk_each(g, target, cands, left, tail, on_path.insert(target))[n] is Some,
    ensures
        ({
            let r = reverse::walk_each(
                g,
                target,
                cands,
                left,
                tail,
                on_path.insert(target),
            )[n]->Some_0;
            let offsets = r.1.take(left as int);
            &&& r.1.len() == left + tail.len()
            &&& r.1 == offsets + tail
            &&& locs.len() == left
            &&& is_walk(g, locs, offsets, target, on_path)
            &&& locs[0] == g.image.base + r.0
            &&& exists|k: int| 0 <= k < cands.len() && (#[trigger] cands[k]).1 == locs.last()
        }),
    decreases left, 0nat, cands.len(),
{
    let inner = on_path.insert(target);
    let init = cands.drop_last();
    let before = reverse::walk_each(g, target, init, left, tail, inner);
    if n < before.len() {
        let locs = lemma_walk_each_sound(g, target, init, left, tail, on_path, n);
        let k = choose|k: int| 0 <= k < init.len() && (#[trigger] init[k]).1 == locs.last();
        assert(cands[k].1 == locs.last());
        locs
    } else {
        let locs = lemma_walk_one_sound(
            g,
            target,
            cands[cands.len() - 1],
            left,
            tail,
            on_path,
            n - before.len(),
        );
        assert(cands[cands.len() - 1].1 == locs.last());
        locs
    }
}

proof fn lemma_walk_one_sound(
    g: Graph,
    target: usize,
    e: Pointer,
    left: nat,
    tail: Seq<usize>,
    on_path: Set<usize>,
    m: int,
) -> (locs: Seq<usize>)
    requires
        left > 0,
        !on_path.contains(target),
        g.ptrs.contains(e),
        target - g.max_offset <= e.0 <= target,
        0 <= m < reverse::walk_one(g, target, e, left, tail, on_path.insert(target)).len(),
        reverse::walk_one(g, target, e, left, tail, on_path.insert(target))[m] is Some,
    ensures
        ({
            let r = reverse::walk_one(
                g,
                target,
                e,
                left,
                tail,
                on_path.insert(target),
            )[m]->Some_0;
            let offsets = r.1.take(left as int);
            &&& r.1.len() == left + tail.len()
            &&& r.1 == offsets + tail
            &&& locs.len() == left
            &&& is_walk(g, locs, offsets, target, on_path)
            &&& locs[0] == g.image.base + r.0
            &&& locs.last() == e.1
        }),
    decreases left, 0nat, 0nat,
{
    let inner = on_path.insert(target);
    let offset = (target - e.0) as usize;
    let rest = seq![offset] + tail;
    let step = reverse::walk_one(g, target, e, left, tail, inner);
    let r = step[m]->Some_0;
    if g.image.holds(e.1) {
        let locs = seq![e.1];
        let offsets = r.1.take(1);
        assert(offsets =~= seq![offset]);
        assert(r.1 =~= offsets + tail);
        assert((target - offset) as u64 == e.0);
        assert(links(g.ptrs, locs, offsets, target, 0));
        locs
    } else {
        let deeper = reverse::walk(g, e.1, (left - 1) as nat, rest, inner);
        assert(step[m] == deeper[m - 1]);
        let locs = lemma_walk_sound(g, e.1, (left - 1) as nat, rest, inner, m - 1);
        let head = r.1.take(left - 1);
        lemma_walk_extend(g, locs, head, e, target, on_path);
        assert(r.1.take(left as int) =~= head.push(offset));
        assert(r.1 =~= r.1.take(left as int) + tail);
        locs.push(e.1)
    }
}

/// Every chain that a walk can take, it takes.
pub(crate) proof fn lemma_walk_complete(
    g: Graph,
    target: usize,
    locs: Seq<usize>,
    offsets: Seq<usize>,
    tail: Seq<usize>,
    on_path: Set<usize>,
)
    requires
        is_walk(g, locs, offsets, target, on_path),
        !on_path.contains(target),
    ensures
        reverse::walk(g, target, locs.len(), tail, on_path).contains(
            Some(((locs[0] - g.image.base) as usize, offsets + tail)),
        ),
    decreases locs.len(),
{
    let left = locs.len();
    let last = (left - 1) as int;
    let offset = offsets[last];
    let e = ((target - offset) as u64, locs[last]);
    let inner = on_path.insert(target);
    let rest = seq![offset] + tail;
    let r = Some(((locs[0] - g.image.base) as usize, offsets + tail));
    let cands = g.candidates(target);
    let near = pointers::valued(target - g.max_offset, target as int);
    assert(links(g.ptrs, locs, offsets, target, last));
    assert(offset <= target && offset <= g.max_offset);
    assert(e.0 == target - offset);
    assert(cands.contains(e)) by {
        let k = choose|k: int| 0 <= k < g.ptrs.len() && g.ptrs[k] == e;
        assert(near(e));
        g.ptrs.lemma_filter_contains(near, k);
    }
    assert((target - e.0) as usize == offset);
    let step = reverse::walk_one(g, target, e, left, tail, inner);
    assert(step.contains(r)) by {
        if left == 1 {
            assert(offsets + tail =~= rest);
            assert(step[0] == r);
        } else {
            let l2 = locs.drop_last();
            let o2 = offsets.drop_last();
            assert(!g.image.holds(locs[last]));
            assert forall|i: int| 0 <= i < l2.len() implies #[trigger] links(
                g.ptrs,
                l2,
                o2,
                e.1,
                i,
            ) by {
                assert(links(g.ptrs, locs, offsets, target, i));
                assert(l2[i] == locs[i]);
                assert(o2[i] == offsets[i]);
                assert(next_stop(l2, e.1, i) == next_stop(locs, target, i));
            }
            assert forall|i: int| 0 <= i < o2.len() implies #[trigger] o2[i] <= g.max_offset by {
                assert(o2[i] == offsets[i]);
            }
            assert forall|i: int| 1 <= i < l2.len() implies !g.image.holds(#[trigger] l2[i])
                && l2[i] != e.1 && !inner.contains(l2[i]) by {
                assert(l2[i] == locs[i]);
            }
            assert forall|i: int, j: int|
                #![trigger l2[i], l2[j]]
                1 <= i < j < l2.len() implies l2[i] != l2[j] by {
                assert(l2[i] == locs[i] && l2[j] == locs[j]);
            }
            lemma_walk_complete(g, e.1, l2, o2, rest, inner);
            let deeper = reverse::walk(g, e.1, (left - 1) as nat, rest, inner);
            assert(o2 + rest =~= offsets + tail);
            let m = choose|m: int| 0 <= m < deeper.len() && deeper[m] == r;
            assert(step[m + 1] == r);
        }
    }
    let k = choose|k: int| 0 <= k < cands.len() && cands[k] == e;
    lemma_walk_each_contains(g, target, cands, left, tail, inner, k, r);
}

/// What one candidate's visits hold, all visits hold.
proof fn lemma_walk_each_contains(
    g: Graph,
    target: usize,
    cands: Seq<Pointer>,
    left: nat,
    tail: Seq<usize>,
    on_path: Set<usize>,
    k: int,
    r: Option<Route>,
)
    requires
        0 <= k < cands.len(),
        reverse::walk_one(g, target, cands[k], left, tail, on_path).contains(r),
    ensures
        reverse::walk_each(g, target, cands, left, tail, on_path).contains(r),
    decreases cands.len(),
{
    let all = reverse::walk_each(g, target, cands, left, tail, on_path);
    let before = reverse::walk_each(g, target, cands.drop_last(), left, tail, on_path);
    let last = reverse::walk_one(g, target, cands.last(), left, tail, on_path);
    if k == cands.len() - 1 {
        let m = choose|m: int| 0 <= m < last.len() && last[m] == r;
        assert(all[before.len() + m] == r);
    } else {
        lemma_walk_each_contains(g, target, cands.drop_last(), left, tail, on_path, k, r);
        let m = choose|m: int| 0 <= m < before.len() && before[m] == r;
        assert(all[m] == r);
    }
}

/// The routes completed are those of the visits that complete one.
proof fn lemma_completed_contains(visits: Seq<Option<Route>>, r: Route)
    ensures
        reverse::completed(visits).contains(r) <==> visits.contains(Some(r)),
    decreases visits.len(),
{
    let all = reverse::completed(visits);
    if visits.len() > 0 {
        let init = visits.drop_last();
        let part = reverse::completed(init);
        lemma_completed_contains(init, r);
        if all.contains(r) {
            let i = choose|i: int| 0 <= i < all.len() && all[i] == r;
            if i < part.len() {
                assert(part[i] == r);
                assert(init.contains(Some(r)));
                let j = choose|j: int| 0 <= j < init.len() && init[j] == Some(r);
                assert(visits[j] == Some(r));
            } else {
                assert(visits[visits.len() - 1] == Some(r));
            }
        }
        if visits.contains(Some(r)) {
            let j = choose|j: int| 0 <= j < visits.len() && visits[j] == Some(r);
            if j < init.len() {
                assert(init[j] == Some(r));
                assert(part.contains(r));
                let i = choose|i: int| 0 <= i < part.len() && part[i] == r;
                assert(all[i] == r);
            } else {
                assert(all[all.len() - 1] == r);
            }
        }
    }
}

pub(crate) proof fn lemma_first_contains<T>(s: Seq<T>, n: int, x: T)
    ensures
        reverse::first(s, n).contains(x) ==> s.contains(x),
        s.len() <= n ==> (s.contains(x) ==> reverse::first(s, n).contains(x)),
{
    let f = reverse::first(s, n);
    if f.contains(x) {
        let i = choose|i: int| 0 <= i < f.len() && f[i] == x;
        assert(s[i] == x);
    }
    if s.contains(x) && s.len() <= n {
        let i = choose|i: int| 0 <= i < s.len() && s[i] == x;
        assert(f[i] == x);
    }
}

/// What two parts complete, they complete one behind the other.
proof fn lemma_completed_add(a: Seq<Option<Route>>, b: Seq<Option<Route>>)
    ensures
        reverse::completed(a + b) == reverse::completed(a) + reverse::completed(b),
    decreases b.len(),
{
    if b.len() == 0 {
        assert(a + b =~= a);
        assert(reverse::completed(b) =~= Seq::empty());
        assert(reverse::completed(a) + Seq::empty() =~= reverse::completed(a));
    } else {
        let init = b.drop_last();
        lemma_completed_add(a, init);
        assert((a + b).drop_last() =~= a + init);
        assert(reverse::completed(a + b) =~= reverse::completed(a) + reverse::completed(b));
    }
}

/// The visits of a depth that the budget leaves room for.
spec fn visits_within(g: Graph, target: usize, node_budget: usize, depth: nat) -> Seq<
    Option<Route>,
> {
    reverse::first(
        reverse::walk(g, target, depth, Seq::empty(), Set::empty()),
        node_budget - 1 - reverse::visits_to(g, target, (depth - 1) as nat).len(),
    )
}

/// One depth more adds the routes of that depth.
proof fn lemma_routes_to_step(g: Graph, target: usize, node_budget: usize, depth: nat)
    requires
        depth > 0,
    ensures
        reverse::routes_to(g, target, node_budget, depth) == reverse::routes_to(
            g,
            target,
            node_budget,
            (depth - 1) as nat,
        ) + reverse::completed(visits_within(g, target, node_budget, depth)),
{
    let a = reverse::visits_to(g, target, (depth - 1) as nat);
    let b = reverse::walk(g, target, depth, Seq::empty(), Set::empty());
    let n = node_budget - 1;
    assert(reverse::visits_to(g, target, depth) == a + b);
    assert(reverse::first(a + b, n) =~= reverse::first(a, n) + reverse::first(b, n - a.len()));
    lemma_completed_add(reverse::first(a, n), reverse::first(b, n - a.len()));
}

/// Routes up to a depth come from chains of at most that length.
pub(crate) proof fn lemma_routes_to_sound(g: Graph, target: usize, node_budget: usize, depth: nat, r: Route)
    requires
        reverse::routes_to(g, target, node_budget, depth).contains(r),
    ensures
        1 <= r.1.len() <= depth,
        exists|locs: Seq<usize>| leads_to(g, r, locs, target),
    decreases depth,
{
    let all = reverse::routes_to(g, target, node_budget, depth);
    if depth == 0 {
        assert(all =~= Seq::empty());
    } else {
        let before = reverse::routes_to(g, target, node_budget, (depth - 1) as nat);
        let visits = reverse::walk(g, target, depth, Seq::empty(), Set::empty());
        let room = node_budget - 1 - reverse::visits_to(g, target, (depth - 1) as nat).len();
        let kept = visits_within(g, target, node_budget, depth);
        let here = reverse::completed(kept);
        lemma_routes_to_step(g, target, node_budget, depth);
        let i = choose|i: int| 0 <= i < all.len() && all[i] == r;
        if i < before.len() {
            assert(before[i] == r);
            lemma_routes_to_sound(g, target, node_budget, (depth - 1) as nat, r);
        } else {
            assert(here[i - before.len()] == r);
            lemma_completed_contains(kept, r);
            lemma_first_contains(visits, room, Some(r));
            let n = choose|n: int| 0 <= n < visits.len() && visits[n] == Some(r);
            let locs = lemma_walk_sound(g, target, depth, Seq::empty(), Set::empty(), n);
            assert(r.1.take(depth as int) =~= r.1);
            assert(leads_to(g, r, locs, target));
        }
    }
}

/// One depth more adds routes of that depth.
pub(crate) proof fn lemma_routes_to_next(
    g: Graph,
    target: usize,
    node_budget: usize,
    depth: nat,
) -> (more: Seq<Route>)
    ensures
        reverse::routes_to(g, target, node_budget, depth + 1) == reverse::routes_to(
            g,
            target,
            node_budget,
            depth,
        ) + more,
        forall|i: int| 0 <= i < more.len() ==> (#[trigger] more[i]).1.len() == depth + 1,
{
    let visits = reverse::walk(g, target, depth + 1, Seq::empty(), Set::empty());
    let room = node_budget - 1 - reverse::visits_to(g, target, depth).len();
    let kept = visits_within(g, target, node_budget, depth + 1);
    let more = reverse::completed(kept);
    lemma_routes_to_step(g, target, node_budget, depth + 1);
    assert forall|i: int| 0 <= i < more.len() implies (#[trigger] more[i]).1.len() == depth
        + 1 by {
        let r = more[i];
        assert(more.contains(r));
        lemma_completed_contains(kept, r);
        lemma_first_contains(visits, room, Some(r));
        let n = choose|n: int| 0 <= n < visits.len() && visits[n] == Some(r);
        let _ = lemma_walk_sound(g, target, depth + 1, Seq::empty(), Set::empty(), n);
    }
    more
}

/// Fewer depths give a first part of the routes.
pub(crate) proof fn lemma_routes_to_prefix(
    g: Graph,
    target: usize,
    node_budget: usize,
    a: nat,
    b: nat,
)
    requires
        a <= b,
    ensures
        reverse::routes_to(g, target, node_budget, a).len() <= reverse::routes_to(
            g,
            target,
            node_budget,
            b,
        ).len(),
        forall|i: int|
            #![trigger reverse::routes_to(g, target, node_budget, a)[i]]
            0 <= i < reverse::routes_to(g, target, node_budget, a).len() ==> reverse::routes_to(
                g,
                target,
                node_budget,
                b,
            )[i] == reverse::routes_to(g, target, node_budget, a)[i],
    decreases b,
{
    if a < b {
        lemma_routes_to_prefix(g, target, node_budget, a, (b - 1) as nat);
        let _ = lemma_routes_to_next(g, target, node_budget, (b - 1) as nat);
    }
}

/// Every route that a scan yields leads from the image to the target, through pointers of the map,
/// by offsets no larger than allowed, in no more dereferences than allowed.
pub proof fn scan_is_sound(
    g: Graph,
    target: usize,
    opts: ScanOpts,
    found: Seq<Route>,
    r: Route,
)
    requires
        reverse::scan_yields(g, target, opts, found),
        found.contains(r),
    ensures
        exists|locs: Seq<usize>| leads_to(g, r, locs, target),
        1 <= r.1.len() <= opts.max_depth,
        path::route_depth(r) == r.1.len(),
{
    lemma_scan_members(g, target, opts, found, r);
    let all = reverse::routes_to(g, target, opts.node_budget, opts.max_depth as nat);
    lemma_first_contains(all, opts.max_results as int, r);
    lemma_routes_to_sound(g, target, opts.node_budget, opts.max_depth as nat, r);
}

/// A scan yields exactly what it collects.
pub(crate) proof fn lemma_scan_members(
    g: Graph,
    target: usize,
    opts: ScanOpts,
    found: Seq<Route>,
    r: Route,
)
    requires
        reverse::scan_yields(g, target, opts, found),
    ensures
        found.contains(r) <==> reverse::collected(g, target, opts).contains(r),
{
    let c = reverse::collected(g, target, opts);
    let sorted = choose|sorted: Seq<Route>| #[trigger]
        sort::stable_sort_of(c, sorted, path::route_rank()) && found == sort::without_repeats(
            sorted,
        );
    sort::without_repeats_keeps_values(sorted, path::route_rank());
    sort::stable_sort_keeps_elements(c, sorted, path::route_rank(), r);
    assert(found.contains(r) <==> sorted.contains(r));
}

/// The walks of the scan, of all depths together, visit fewer candidates than the node budget.
pub open spec fn budget_suffices(g: Graph, target: usize, opts: ScanOpts) -> bool {
    reverse::visits_to(g, target, opts.max_depth as nat).len() < opts.node_budget
}

pub(crate) proof fn lemma_routes_to_complete(
    g: Graph,
    target: usize,
    opts: ScanOpts,
    depth: nat,
    r: Route,
    locs: Seq<usize>,
)
    requires
        budget_suffices(g, target, opts),
        leads_to(g, r, locs, target),
        r.1.len() <= depth <= opts.max_depth,
    ensures
        reverse::routes_to(g, target, opts.node_budget, depth).contains(r),
    decreases depth,
{
    let all = reverse::routes_to(g, target, opts.node_budget, depth);
    let before = reverse::routes_to(g, target, opts.node_budget, (depth - 1) as nat);
    lemma_routes_to_step(g, target, opts.node_budget, depth);
    if r.1.len() < depth {
        lemma_routes_to_complete(g, target, opts, (depth - 1) as nat, r, locs);
        let i = choose|i: int| 0 <= i < before.len() && before[i] == r;
        assert(all[i] == r);
    } else {
        let visits = reverse::walk(g, target, depth, Seq::empty(), Set::empty());
        let room = opts.node_budget - 1 - reverse::visits_to(g, target, (depth - 1) as nat).len();
        let kept = visits_within(g, target, opts.node_budget, depth);
        reverse::lemma_visits_to_prefix(g, target, depth, opts.max_depth as nat);
        let here = reverse::completed(kept);
        lemma_walk_complete(g, target, locs, r.1, Seq::empty(), Set::empty());
        assert(r.1 + Seq::empty() =~= r.1);
        assert(((locs[0] - g.image.base) as usize, r.1) == r);
        lemma_first_contains(visits, room, Some(r));
        lemma_completed_contains(kept, r);
        let i = choose|i: int| 0 <= i < here.len() && here[i] == r;
        assert(all[before.len() + i] == r);
    }
}

/// Where neither the node budget nor the cap on results cuts a scan short, it yields every route
/// to the target, of every depth up to the largest: longer ones too, besides the shortest.
pub proof fn scan_is_complete(
    g: Graph,
    target: usize,
    opts: ScanOpts,
    found: Seq<Route>,
    r: Route,
    locs: Seq<usize>,
)
    requires
        reverse::scan_yields(g, target, opts, found),
        budget_suffices(g, target, opts),
        reverse::routes_to(g, target, opts.node_budget, opts.max_depth as nat).len()
            <= opts.max_results,
        leads_to(g, r, locs, target),
        r.1.len() <= opts.max_depth,
    ensures
        found.contains(r),
{
    lemma_routes_to_complete(g, target, opts, opts.max_depth as nat, r, locs);
    let all = reverse::routes_to(g, target, opts.node_budget, opts.max_depth as nat);
    lemma_first_contains(all, opts.max_results as int, r);
    lemma_scan_members(g, target, opts, found, r);
}

/// A scan yields no more routes than the cap, the shortest first, and among those of one depth
/// those of the smaller offsets first.
pub proof fn scan_is_ordered(g: Graph, target: usize, opts: ScanOpts, found: Seq<Route>)
    requires
        reverse::scan_yields(g, target, opts, found),
    ensures
        found.len() <= opts.max_results,
        sort::ordered(found, path::route_rank()),
        forall|i: int, j: int|
            #![trigger found[i], found[j]]
            0 <= i < j < found.len() ==> path::route_depth(found[i]) <= path::route_depth(found[j]),
{
    let c = reverse::collected(g, target, opts);
    let sorted = choose|sorted: Seq<Route>| #[trigger]
        sort::stable_sort_of(c, sorted, path::route_rank()) && found == sort::without_repeats(
            sorted,
        );
    sort::without_repeats_keeps_values(sorted, path::route_rank());
    sort::stable_sort_keeps_length(c, sorted, path::route_rank());
}

pub(crate) proof fn lemma_completed_length(visits: Seq<Option<Route>>)
    ensures
        reverse::completed(visits).len() <= visits.len(),
    decreases visits.len(),
{
    if visits.len() > 0 {
        lemma_completed_length(visits.drop_last());
    }
}

/// A scan explores fewer graph nodes than the node budget, all its depths together, and so yields
/// no more routes than that; nor does it yield more than the cap.
pub proof fn scan_keeps_to_budget(g: Graph, target: usize, opts: ScanOpts, found: Seq<Route>)
    requires
        reverse::scan_yields(g, target, opts, found),
    ensures
        found.len() <= opts.node_budget,
        found.len() <= opts.max_results,
{
    let c = reverse::collected(g, target, opts);
    let kept = reverse::first(
        reverse::visits_to(g, target, opts.max_depth as nat),
        opts.node_budget - 1,
    );
    let sorted = choose|sorted: Seq<Route>| #[trigger]
        sort::stable_sort_of(c, sorted, path::route_rank()) && found == sort::without_repeats(
            sorted,
        );
    sort::without_repeats_keeps_values(sorted, path::route_rank());
    sort::stable_sort_keeps_length(c, sorted, path::route_rank());
    lemma_completed_length(kept);
}

/// The pointer that the `i`-th location of a chain holds.
pub open spec fn chain_value(
    locs: Seq<usize>,
    offsets: Seq<usize>,
    target: usize,
    i: int,
) -> u64 {
    (next_stop(locs, target, i) - offsets[i]) as u64
}

/// As long as memory holds what the pointer map says, following a route that leads to `target`
/// ends at `target`.
pub proof fn routes_resolve<K: Kernel>(
    mem: ProcMem<K>,
    g: Graph,
    r: Route,
    locs: Seq<usize>,
    target: usize,
    addr: Option<usize>,
)
    requires
        leads_to(g, r, locs, target),
        g.image == mem.image_range(),
        forall|e: Pointer, word: Option<u64>|
            #![trigger g.ptrs.contains(e), mem.task.may_read_u64(e.1, word)]
            g.ptrs.contains(e) && mem.task.may_read_u64(e.1, word) ==> word == Some(e.0),
        mem.may_resolve(r, addr),
    ensures
        addr == Some(target),
{
    let hops = choose|hops: Seq<u64>| #[trigger]
        mem.may_follow(r, hops) && match addr {
            Some(a) => hops.len() == path::route_depth(r) && a == (
            hops.last() as usize).wrapping_add(resolve::final_offset(r)),
            None => hops.len() < path::route_depth(r) && mem.task.may_read_u64(
                mem.hop_addr(r, hops, hops.len() as int),
                None,
            ),
        };
    lemma_hops(mem, g, r, locs, target, hops, hops.len() as int);
    if addr is None {
        let i = hops.len() as int;
        let e = (chain_value(locs, r.1, target, i), locs[i]);
        assert(links(g.ptrs, locs, r.1, target, i));
        assert(g.ptrs.contains(e));
        assert(mem.task.may_read_u64(e.1, None));
    } else {
        let i = hops.len() - 1;
        assert(links(g.ptrs, locs, r.1, target, i));
        assert(hops[i] == chain_value(locs, r.1, target, i));
        assert(hops[i] == target - r.1[i]);
    }
}

/// The pointers read along a route are those of the chain, at its locations.
proof fn lemma_hops<K: Kernel>(
    mem: ProcMem<K>,
    g: Graph,
    r: Route,
    locs: Seq<usize>,
    target: usize,
    hops: Seq<u64>,
    n: int,
)
    requires
        leads_to(g, r, locs, target),
        g.image == mem.image_range(),
        forall|e: Pointer, word: Option<u64>|
            #![trigger g.ptrs.contains(e), mem.task.may_read_u64(e.1, word)]
            g.ptrs.contains(e) && mem.task.may_read_u64(e.1, word) ==> word == Some(e.0),
        mem.may_follow(r, hops),
        0 <= n <= hops.len(),
    ensures
        forall|i: int| 0 <= i < n ==> #[trigger] hops[i] == chain_value(locs, r.1, target, i),
        n < locs.len() ==> mem.hop_addr(r, hops, n) == locs[n],
    decreases n,
{
    if n > 0 {
        lemma_hops(mem, g, r, locs, target, hops, n - 1);
        let i = n - 1;
        let e = (chain_value(locs, r.1, target, i), locs[i]);
        assert(links(g.ptrs, locs, r.1, target, i));
        assert(g.ptrs.contains(e));
        assert(mem.task.may_read_u64(mem.hop_addr(r, hops, i), Some(hops[i])));
        assert(mem.task.may_read_u64(e.1, Some(hops[i])));
        assert(hops[i] == e.0);
    }
}

/// As long as memory holds what the pointer map says, every path that a scan yields resolves to the
/// scan's target.
pub proof fn scan_resolves<K: Kernel>(
    mem: ProcMem<K>,
    g: Graph,
    target: usize,
    opts: ScanOpts,
    found: Seq<Route>,
    r: Route,
    addr: Option<usize>,
)
    requires
        reverse::scan_yields(g, target, opts, found),
        found.contains(r),
        g.image == mem.image_range(),
        forall|e: Pointer, word: Option<u64>|
            #![trigger g.ptrs.contains(e), mem.task.may_read_u64(e.1, word)]
            g.ptrs.contains(e) && mem.task.may_read_u64(e.1, word) ==> word == Some(e.0),
        mem.may_resolve(r, addr),
    ensures
        addr == Some(target),
{
    scan_is_sound(g, target, opts, found, r);
    let locs = choose|locs: Seq<usize>| leads_to(g, r, locs, target);
    routes_resolve(mem, g, r, locs, target, addr);
}

/// No location stands in the map twice.
pub open spec fn located_once(ptrs: Seq<Pointer>) -> bool {
    forall|i: int, j: int|
        #![trigger ptrs[i], ptrs[j]]
        0 <= i < j < ptrs.len() ==> ptrs[i].1 != ptrs[j].1
}

/// Each visit completes another route.
spec fn distinct_visits(visits: Seq<Option<Route>>) -> bool {
    forall|i: int, j: int|
        #![trigger visits[i], visits[j]]
        0 <= i < j < visits.len() && visits[i] is Some ==> visits[i] != visits[j]
}

/// A start and offsets make a chain what it is.
pub(crate) proof fn lemma_same_chain(
    ptrs: Seq<Pointer>,
    a: Seq<usize>,
    b: Seq<usize>,
    offsets: Seq<usize>,
    target_a: usize,
    target_b: usize,
    i: int,
)
    requires
        located_once(ptrs),
        is_chain(ptrs, a, offsets, target_a),
        is_chain(ptrs, b, offsets, target_b),
        a[0] == b[0],
        0 <= i < a.len(),
    ensures
        a[i] == b[i],
    decreases i,
{
    if i > 0 {
        lemma_same_chain(ptrs, a, b, offsets, target_a, target_b, i - 1);
        let j = i - 1;
        assert(links(ptrs, a, offsets, target_a, j));
        assert(links(ptrs, b, offsets, target_b, j));
        let ea = ((a[i] - offsets[j]) as u64, a[j]);
        let eb = ((b[i] - offsets[j]) as u64, b[j]);
        assert(ptrs.contains(ea) && ptrs.contains(eb));
        let ka = choose|k: int| 0 <= k < ptrs.len() && ptrs[k] == ea;
        let kb = choose|k: int| 0 <= k < ptrs.len() && ptrs[k] == eb;
        assert(ptrs[ka].1 == ptrs[kb].1);
        assert(ka == kb);
    }
}

proof fn lemma_filter_located_once(ptrs: Seq<Pointer>, keep: spec_fn(Pointer) -> bool)
    requires
        located_once(ptrs),
    ensures
        located_once(ptrs.filter(keep)),
    decreases ptrs.len(),
{
    reveal(Seq::filter);
    if ptrs.len() > 0 {
        let init = ptrs.drop_last();
        assert(located_once(init));
        lemma_filter_located_once(init, keep);
        let part = init.filter(keep);
        let all = ptrs.filter(keep);
        assert forall|i: int, j: int|
            #![trigger all[i], all[j]]
            0 <= i < j < all.len() implies all[i].1 != all[j].1 by {
            assert(all[i] == part[i]);
            if j < part.len() {
                assert(all[j] == part[j]);
            } else {
                assert(part.contains(part[i]));
                init.lemma_filter_contains_rev(keep, part[i]);
                let m = choose|m: int| 0 <= m < init.len() && init[m] == part[i];
                assert(ptrs[m] == part[i]);
                assert(ptrs[ptrs.len() - 1] == all[j]);
            }
        }
    }
}

proof fn lemma_walk_once(
    g: Graph,
    target: usize,
    left: nat,
    tail: Seq<usize>,
    on_path: Set<usize>,
)
    requires
        located_once(g.ptrs),
    ensures
        distinct_visits(reverse::walk(g, target, left, tail, on_path)),
    decreases left, 1nat, 0nat,
{
    if left > 0 && !on_path.contains(target) {
        lemma_candidates_are_near(g, target);
        lemma_filter_located_once(
            g.ptrs,
            pointers::valued(target - g.max_offset, target as int),
        );
        lemma_walk_each_once(g, target, g.candidates(target), left, tail, on_path);
    }
}

proof fn lemma_walk_each_once(
    g: Graph,
    target: usize,
    cands: Seq<Pointer>,
    left: nat,
    tail: Seq<usize>,
    on_path: Set<usize>,
)
    requires
        located_once(g.ptrs),
        located_once(cands),
        left > 0,
        !on_path.contains(target),
        forall|k: int|
            0 <= k < cands.len() ==> g.ptrs.contains(#[trigger] cands[k]) && target - g.max_offset
                <= cands[k].0 <= target,
    ensures
        distinct_visits(
            reverse::walk_each(g, target, cands, left, tail, on_path.insert(target)),
        ),
    decreases left, 0nat, cands.len(),
{
    if cands.len() > 0 {
        let inner = on_path.insert(target);
        let init = cands.drop_last();
        let e = cands[cands.len() - 1];
        let before = reverse::walk_each(g, target, init, left, tail, inner);
        let step = reverse::walk_one(g, target, e, left, tail, inner);
        let all = reverse::walk_each(g, target, cands, left, tail, inner);
        assert(located_once(init));
        lemma_walk_each_once(g, target, init, left, tail, on_path);
        if !g.image.holds(e.1) {
            let rest = seq![(target - e.0) as usize] + tail;
            let deeper = reverse::walk(g, e.1, (left - 1) as nat, rest, inner);
            lemma_walk_once(g, e.1, (left - 1) as nat, rest, inner);
            assert forall|i: int, j: int|
                #![trigger step[i], step[j]]
                0 <= i < j < step.len() && step[i] is Some implies step[i] != step[j] by {
                assert(step[i] == deeper[i - 1]);
                assert(step[j] == deeper[j - 1]);
            }
        }
        assert(distinct_visits(step));
        assert forall|i: int, j: int|
            #![trigger all[i], all[j]]
            0 <= i < j < all.len() && all[i] is Some implies all[i] != all[j] by {
            if j < before.len() {
                assert(all[i] == before[i] && all[j] == before[j]);
            } else if i >= before.len() {
                assert(all[i] == step[i - before.len()] && all[j] == step[j - before.len()]);
            } else {
                assert(all[i] == before[i] && all[j] == step[j - before.len()]);
                if all[i] == all[j] {
                    let a = lemma_walk_each_sound(g, target, init, left, tail, on_path, i);
                    let b = lemma_walk_one_sound(
                        g,
                        target,
                        e,
                        left,
                        tail,
                        on_path,
                        j - before.len(),
                    );
                    let offsets = all[i]->Some_0.1.take(left as int);
                    lemma_same_chain(g.ptrs, a, b, offsets, target, target, left - 1);
                    let k = choose|k: int| 0 <= k < init.len() && (#[trigger] init[k]).1 == a.last();
                    assert(cands[k].1 == e.1);
                    assert(false);
                }
            }
        }
    }
}

proof fn lemma_completed_once(visits: Seq<Option<Route>>)
    requires
        distinct_visits(visits),
    ensures
        reverse::completed(visits).no_duplicates(),
    decreases visits.len(),
{
    if visits.len() > 0 {
        let init = visits.drop_last();
        assert(distinct_visits(init));
        lemma_completed_once(init);
        let part = reverse::completed(init);
        let all = reverse::completed(visits);
        assert forall|i: int, j: int| 0 <= i < j < all.len() implies all[i] != all[j] by {
            if j < part.len() {
                assert(all[i] == part[i] && all[j] == part[j]);
            } else {
                assert(all[i] == part[i]);
                assert(part.contains(part[i]));
                lemma_completed_contains(init, part[i]);
                let m = choose|m: int| 0 <= m < init.len() && init[m] == Some(part[i]);
                assert(visits[m] == Some(part[i]));
                assert(visits[visits.len() - 1] == Some(all[j]));
            }
        }
    }
}

proof fn lemma_routes_to_once(g: Graph, target: usize, node_budget: usize, depth: nat)
    requires
        located_once(g.ptrs),
    ensures
        reverse::routes_to(g, target, node_budget, depth).no_duplicates(),
    decreases depth,
{
    let all = reverse::routes_to(g, target, node_budget, depth);
    if depth == 0 {
        assert(all =~= Seq::empty());
    } else {
        lemma_routes_to_once(g, target, node_budget, (depth - 1) as nat);
        lemma_routes_to_step(g, target, node_budget, depth);
        let before = reverse::routes_to(g, target, node_budget, (depth - 1) as nat);
        let visits = reverse::walk(g, target, depth, Seq::empty(), Set::empty());
        let room = node_budget - 1 - reverse::visits_to(g, target, (depth - 1) as nat).len();
        let kept = visits_within(g, target, node_budget, depth);
        let here = reverse::completed(kept);
        lemma_walk_once(g, target, depth, Seq::empty(), Set::empty());
        assert(distinct_visits(kept)) by {
            assert(forall|i: int| 0 <= i < kept.len() ==> #[trigger] kept[i] == visits[i]);
        }
        lemma_completed_once(kept);
        assert forall|i: int, j: int| 0 <= i < j < all.len() implies all[i] != all[j] by {
            if j < before.len() {
                assert(all[i] == before[i] && all[j] == before[j]);
            } else if i >= before.len() {
                assert(all[i] == here[i - before.len()] && all[j] == here[j - before.len()]);
            } else {
                let r = all[j];
                assert(before.contains(before[i]));
                lemma_routes_to_sound(g, target, node_budget, (depth - 1) as nat, before[i]);
                assert(here[j - before.len()] == r);
                lemma_completed_contains(kept, r);
                lemma_first_contains(visits, room, Some(r));
                let n = choose|n: int| 0 <= n < visits.len() && visits[n] == Some(r);
                let _ = lemma_walk_sound(g, target, depth, Seq::empty(), Set::empty(), n);
            }
        }
    }
}

proof fn lemma_no_repeats_to_drop<T>(s: Seq<T>)
    requires
        s.no_duplicates(),
    ensures
        sort::without_repeats(s) == s,
    decreases s.len(),
{
    if s.len() >= 2 {
        lemma_no_repeats_to_drop(s.drop_last());
        assert(s.drop_last().push(s.last()) =~= s);
    }
}

/// Where no location stands in the map twice, a scan collects each route once.
pub(crate) proof fn lemma_collected_once(g: Graph, target: usize, opts: ScanOpts)
    requires
        located_once(g.ptrs),
    ensures
        reverse::collected(g, target, opts).no_duplicates(),
{
    let all = reverse::routes_to(g, target, opts.node_budget, opts.max_depth as nat);
    let c = reverse::collected(g, target, opts);
    lemma_routes_to_once(g, target, opts.node_budget, opts.max_depth as nat);
    assert(forall|i: int| 0 <= i < c.len() ==> #[trigger] c[i] == all[i]);
}

/// Sorting what has no duplicates leaves none, and no repeats to drop.
pub(crate) proof fn lemma_sorted_once(
    c: Seq<Route>,
    sorted: Seq<Route>,
    rank: spec_fn(Route) -> sort::Rank,
)
    requires
        c.no_duplicates(),
        sort::stable_sort_of(c, sorted, rank),
    ensures
        sorted.no_duplicates(),
        sort::without_repeats(sorted) == sorted,
{
    sort::stable_sort_keeps_length(c, sorted, rank);
    assert(sorted.to_set() =~= c.to_set()) by {
        assert forall|r: Route| sorted.to_set().contains(r) <==> c.to_set().contains(r) by {
            sort::stable_sort_keeps_elements(c, sorted, rank, r);
        }
    }
    c.unique_seq_to_set();
    sorted.lemma_no_dup_set_cardinality();
    lemma_no_repeats_to_drop(sorted);
}

/// Where no location stands in the map twice, a scan yields each route once.
pub proof fn scan_has_no_duplicates(
    g: Graph,
    target: usize,
    opts: ScanOpts,
    found: Seq<Route>,
)
    requires
        located_once(g.ptrs),
        reverse::scan_yields(g, target, opts, found),
    ensures
        found.no_duplicates(),
{
    let c = reverse::collected(g, target, opts);
    let sorted = choose|sorted: Seq<Route>| #[trigger]
        sort::stable_sort_of(c, sorted, path::route_rank()) && found == sort::without_repeats(
            sorted,
        );
    lemma_collected_once(g, target, opts);
    lemma_sorted_once(c, sorted, path::route_rank());
}

} // verus!
