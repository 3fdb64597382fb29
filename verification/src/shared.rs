//! Paths that two roots share, and what the joint scan has to do with them.
use crate::chain;
use crate::joint;
use crate::joint::Roots;
use crate::path;
use crate::path::{Route, ScanOpts};
use crate::pointers;
use crate::pointers::Pointer;
use crate::reverse;
use crate::reverse::Graph;
use vstd::prelude::*;

verus! {

/// Two chains, by the same offsets, none of them larger than allowed, that start at the same
/// distance `rel` from the roots.
pub open spec fn is_pair(
    ptrs: Seq<Pointer>,
    q: Roots,
    rel: usize,
    la: Seq<usize>,
    lb: Seq<usize>,
    offsets: Seq<usize>,
    ca: usize,
    cb: usize,
) -> bool {
    &&& chain::is_chain(ptrs, la, offsets, ca)
    &&& chain::is_chain(ptrs, lb, offsets, cb)
    &&& la[0] == q.root_a + rel
    &&& lb[0] == q.root_b + rel
    &&& rel < q.window
    &&& forall|i: int| 0 <= i < offsets.len() ==> #[trigger] offsets[i] <= q.max_offset
}

/// The path leads from both roots to their targets: its first element is the distance from the
/// root, the others are the offsets behind each dereference.
pub open spec fn is_shared(
    ptrs: Seq<Pointer>,
    q: Roots,
    path: Seq<usize>,
    la: Seq<usize>,
    lb: Seq<usize>,
    target_a: usize,
    target_b: usize,
) -> bool {
    &&& path.len() > 0
    &&& is_pair(
        ptrs,
        q,
        path[0],
        la,
        lb,
        path.subrange(1, path.len() as int),
        target_a,
        target_b,
    )
}

/// Two chains come by no pair of addresses twice, and by none of `on_path`.
spec fn is_fresh(
    la: Seq<usize>,
    lb: Seq<usize>,
    ca: usize,
    cb: usize,
    on_path: Set<(usize, usize)>,
) -> bool {
    &&& forall|i: int|
        #![trigger la[i]]
        1 <= i < la.len() ==> (la[i], lb[i]) != (ca, cb) && !on_path.contains((la[i], lb[i]))
    &&& forall|i: int, j: int|
        #![trigger la[i], la[j]]
        1 <= i < j < la.len() ==> (la[i], lb[i]) != (la[j], lb[j])
}

/// The holders of a value are the locations that the map has for it.
pub(crate) proof fn lemma_holders(ptrs: Seq<Pointer>, value: int, loc: usize)
    ensures
        joint::holders(ptrs, value).contains(loc) <==> (0 <= value <= u64::MAX && ptrs.contains(
            (value as u64, loc),
        )),
{
    let keep = pointers::valued(value, value);
    let kept = ptrs.filter(keep);
    let locs = joint::holders(ptrs, value);
    if locs.contains(loc) {
        let k = choose|k: int| 0 <= k < locs.len() && locs[k] == loc;
        ptrs.lemma_filter_pred(keep, k);
        assert(kept.contains(kept[k]));
        ptrs.lemma_filter_contains_rev(keep, kept[k]);
        assert(kept[k] == (value as u64, loc));
    }
    if 0 <= value <= u64::MAX && ptrs.contains((value as u64, loc)) {
        let i = choose|i: int| 0 <= i < ptrs.len() && ptrs[i] == (value as u64, loc);
        ptrs.lemma_filter_contains(keep, i);
        let k = choose|k: int| 0 <= k < kept.len() && kept[k] == (value as u64, loc);
        assert(locs[k] == loc);
    }
}

/// A chain of one location.
proof fn lemma_one_link(ptrs: Seq<Pointer>, loc: usize, offset: usize, target: usize)
    requires
        offset <= target,
        ptrs.contains(((target - offset) as u64, loc)),
    ensures
        chain::is_chain(ptrs, seq![loc], seq![offset], target),
{
    assert(chain::links(ptrs, seq![loc], seq![offset], target, 0));
}

/// A chain to a location that holds a pointer extends to where the pointer leads.
proof fn lemma_extend(
    ptrs: Seq<Pointer>,
    locs: Seq<usize>,
    offsets: Seq<usize>,
    loc: usize,
    offset: usize,
    target: usize,
)
    requires
        chain::is_chain(ptrs, locs, offsets, loc),
        offset <= target,
        ptrs.contains(((target - offset) as u64, loc)),
    ensures
        chain::is_chain(ptrs, locs.push(loc), offsets.push(offset), target),
{
    let l2 = locs.push(loc);
    let o2 = offsets.push(offset);
    assert forall|i: int| 0 <= i < l2.len() implies #[trigger] chain::links(
        ptrs,
        l2,
        o2,
        target,
        i,
    ) by {
        if i < locs.len() {
            assert(chain::links(ptrs, locs, offsets, loc, i));
            assert(chain::next_stop(l2, target, i) == chain::next_stop(locs, loc, i));
        }
    }
}

/// A chain of two or more locations is one to its last location, and one more link.
proof fn lemma_shorten(ptrs: Seq<Pointer>, locs: Seq<usize>, offsets: Seq<usize>, target: usize)
    requires
        chain::is_chain(ptrs, locs, offsets, target),
    ensures
        offsets.last() <= target,
        ptrs.contains(((target - offsets.last()) as u64, locs.last())),
        locs.len() > 1 ==> chain::is_chain(
            ptrs,
            locs.drop_last(),
            offsets.drop_last(),
            locs.last(),
        ),
{
    assert(chain::links(ptrs, locs, offsets, target, locs.len() - 1));
    if locs.len() > 1 {
        let l2 = locs.drop_last();
        let o2 = offsets.drop_last();
        assert forall|i: int| 0 <= i < l2.len() implies #[trigger] chain::links(
            ptrs,
            l2,
            o2,
            locs.last(),
            i,
        ) by {
            assert(chain::links(ptrs, locs, offsets, target, i));
            assert(chain::next_stop(l2, locs.last(), i) == chain::next_stop(locs, target, i));
        }
    }
}

/// What a path completed by a joint walk is made of.
spec fn is_made_of(
    ptrs: Seq<Pointer>,
    q: Roots,
    path: Seq<usize>,
    la: Seq<usize>,
    lb: Seq<usize>,
    ca: usize,
    cb: usize,
    left: nat,
    tail: Seq<usize>,
) -> bool {
    &&& path.len() == 1 + left + tail.len()
    &&& path == path.take(left as int + 1) + tail
    &&& la.len() == left
    &&& is_pair(ptrs, q, path[0], la, lb, path.subrange(1, left as int + 1), ca, cb)
}

/// Every path that a joint walk completes is shared.
proof fn lemma_walk2_sound(
    ptrs: Seq<Pointer>,
    q: Roots,
    ca: usize,
    cb: usize,
    left: nat,
    tail: Seq<usize>,
    on_path: Set<(usize, usize)>,
    n: int,
) -> (r: (Seq<usize>, Seq<usize>))
    requires
        0 <= n < joint::walk2(ptrs, q, ca, cb, left, tail, on_path).len(),
        joint::walk2(ptrs, q, ca, cb, left, tail, on_path)[n] is Some,
    ensures
        is_made_of(
            ptrs,
            q,
            joint::walk2(ptrs, q, ca, cb, left, tail, on_path)[n]->Some_0,
            r.0,
            r.1,
            ca,
            cb,
            left,
            tail,
        ),
    decreases left, 2nat, 0nat,
{
    let near = pointers::valued(ca - q.max_offset, ca as int);
    let cands = ptrs.filter(near);
    assert forall|k: int| 0 <= k < cands.len() implies ptrs.contains(#[trigger] cands[k]) && ca
        - q.max_offset <= cands[k].0 <= ca by {
        ptrs.lemma_filter_pred(near, k);
        assert(cands.contains(cands[k]));
        ptrs.lemma_filter_contains_rev(near, cands[k]);
    }
    lemma_walk2_each_sound(ptrs, q, ca, cb, cands, left, tail, on_path, n)
}

proof fn lemma_walk2_each_sound(
    ptrs: Seq<Pointer>,
    q: Roots,
    ca: usize,
    cb: usize,
    cands: Seq<Pointer>,
    left: nat,
    tail: Seq<usize>,
    on_path: Set<(usize, usize)>,
    n: int,
) -> (r: (Seq<usize>, Seq<usize>))
    requires
        left > 0,
        forall|k: int|
            0 <= k < cands.len() ==> ptrs.contains(#[trigger] cands[k]) && ca - q.max_offset
                <= cands[k].0 <= ca,
        0 <= n < joint::walk2_each(
            ptrs,
            q,
            ca,
            cb,
            cands,
            left,
            tail,
            on_path.insert((ca, cb)),
        ).len(),
        joint::walk2_each(ptrs, q, ca, cb, cands, left, tail, on_path.insert((ca, cb)))[n] is Some,
    ensures
        is_made_of(
            ptrs,
            q,
            joint::walk2_each(
                ptrs,
                q,
                ca,
                cb,
                cands,
                left,
                tail,
                on_path.insert((ca, cb)),
            )[n]->Some_0,
            r.0,
            r.1,
            ca,
            cb,
            left,
            tail,
        ),
    decreases left, 1nat, cands.len(),
{
    let inner = on_path.insert((ca, cb));
    let init = cands.drop_last();
    let before = joint::walk2_each(ptrs, q, ca, cb, init, left, tail, inner);
    if n < before.len() {
        lemma_walk2_each_sound(ptrs, q, ca, cb, init, left, tail, on_path, n)
    } else {
        let e = cands[cands.len() - 1];
        let m = n - before.len();
        let off = (ca - e.0) as usize;
        let way = seq![off] + tail;
        let locs_b = joint::holders(ptrs, cb - off);
        let step = joint::walk2_one(ptrs, q, ca, cb, e, left, tail, inner);
        let path = step[m]->Some_0;
        assert((ca - off) as u64 == e.0);
        if q.in_a(e.1) && left == 1 {
            let rel = (e.1 - q.root_a) as usize;
            let k = choose|k: int|
                0 <= k < locs_b.len() && #[trigger] locs_b[k] == q.root_b + rel;
            assert(locs_b.contains(locs_b[k]));
            lemma_holders(ptrs, cb - off, locs_b[k]);
            lemma_one_link(ptrs, e.1, off, ca);
            lemma_one_link(ptrs, locs_b[k], off, cb);
            assert(path.subrange(1, 2) =~= seq![off]);
            assert(path =~= path.take(2) + tail);
            (seq![e.1], seq![locs_b[k]])
        } else {
            let over = joint::walk2_over(ptrs, q, e.1, locs_b, (left - 1) as nat, way, inner);
            assert(step[m] == over[m - 1]);
            let (k, deep) = lemma_walk2_over_sound(
                ptrs,
                q,
                e.1,
                locs_b,
                (left - 1) as nat,
                way,
                inner,
                m - 1,
            );
            let loc_b = locs_b[k];
            assert(locs_b.contains(loc_b));
            lemma_holders(ptrs, cb - off, loc_b);
            let (la, lb) = deep;
            let head = path.subrange(1, left as int);
            lemma_extend(ptrs, la, head, e.1, off, ca);
            lemma_extend(ptrs, lb, head, loc_b, off, cb);
            assert(path.subrange(1, left as int + 1) =~= head.push(off));
            assert(path =~= path.take(left as int + 1) + tail);
            assert forall|i: int| 0 <= i < head.push(off).len() implies #[trigger] head.push(off)[i]
                <= q.max_offset by {
                if i < head.len() {
                    assert(head.push(off)[i] == head[i]);
                }
            }
            (la.push(e.1), lb.push(loc_b))
        }
    }
}

proof fn lemma_walk2_over_sound(
    ptrs: Seq<Pointer>,
    q: Roots,
    ca: usize,
    locs_b: Seq<usize>,
    left: nat,
    tail: Seq<usize>,
    on_path: Set<(usize, usize)>,
    n: int,
) -> (r: (int, (Seq<usize>, Seq<usize>)))
    requires
        0 <= n < joint::walk2_over(ptrs, q, ca, locs_b, left, tail, on_path).len(),
        joint::walk2_over(ptrs, q, ca, locs_b, left, tail, on_path)[n] is Some,
    ensures
        0 <= r.0 < locs_b.len(),
        is_made_of(
            ptrs,
            q,
            joint::walk2_over(ptrs, q, ca, locs_b, left, tail, on_path)[n]->Some_0,
            r.1.0,
            r.1.1,
            ca,
            locs_b[r.0],
            left,
            tail,
        ),
    decreases left, 3nat, locs_b.len(),
{
    let init = locs_b.drop_last();
    let before = joint::walk2_over(ptrs, q, ca, init, left, tail, on_path);
    if n < before.len() {
        lemma_walk2_over_sound(ptrs, q, ca, init, left, tail, on_path, n)
    } else {
        let deep = lemma_walk2_sound(
            ptrs,
            q,
            ca,
            locs_b.last(),
            left,
            tail,
            on_path,
            n - before.len(),
        );
        (locs_b.len() - 1, deep)
    }
}

/// Every shared path that comes by no pair twice, a joint walk completes.
proof fn lemma_walk2_complete(
    ptrs: Seq<Pointer>,
    q: Roots,
    rel: usize,
    la: Seq<usize>,
    lb: Seq<usize>,
    offsets: Seq<usize>,
    ca: usize,
    cb: usize,
    tail: Seq<usize>,
    on_path: Set<(usize, usize)>,
)
    requires
        is_pair(ptrs, q, rel, la, lb, offsets, ca, cb),
        is_fresh(la, lb, ca, cb, on_path),
        !on_path.contains((ca, cb)),
    ensures
        joint::walk2(ptrs, q, ca, cb, la.len(), tail, on_path).contains(
            Some(seq![rel] + offsets + tail),
        ),
    decreases la.len(),
{
    let left = la.len();
    let off = offsets.last();
    let inner = on_path.insert((ca, cb));
    let way = seq![off] + tail;
    let hit = Some(seq![rel] + offsets + tail);
    lemma_shorten(ptrs, la, offsets, ca);
    lemma_shorten(ptrs, lb, offsets, cb);
    assert(offsets[left - 1] <= q.max_offset);
    let e = ((ca - off) as u64, la.last());
    let loc_b = lb.last();
    let locs_b = joint::holders(ptrs, cb - off);
    lemma_holders(ptrs, cb - off, loc_b);
    let k = choose|k: int| 0 <= k < locs_b.len() && locs_b[k] == loc_b;
    let near = pointers::valued(ca - q.max_offset, ca as int);
    let cands = ptrs.filter(near);
    let step = joint::walk2_one(ptrs, q, ca, cb, e, left, tail, inner);
    assert((ca - e.0) as usize == off);
    assert(step.contains(hit)) by {
        if left == 1 {
            assert(seq![rel] + offsets + tail =~= seq![rel] + way);
            assert(locs_b[k] == q.root_b + rel);
            assert(step[0] == hit);
        } else {
            let la2 = la.drop_last();
            let o2 = offsets.drop_last();
            assert forall|i: int| 0 <= i < o2.len() implies #[trigger] o2[i] <= q.max_offset by {
                assert(o2[i] == offsets[i]);
            }
            let lb2 = lb.drop_last();
            assert(la[left - 1] == e.1);
            assert forall|i: int|
                #![trigger la2[i]]
                1 <= i < la2.len() implies (la2[i], lb2[i]) != (e.1, loc_b) && !inner.contains(
                (la2[i], lb2[i]),
            ) by {
                assert(la2[i] == la[i]);
            }
            assert forall|i: int, j: int|
                #![trigger la2[i], la2[j]]
                1 <= i < j < la2.len() implies (la2[i], lb2[i]) != (la2[j], lb2[j]) by {
                assert(la2[i] == la[i] && la2[j] == la[j]);
            }
            lemma_walk2_complete(ptrs, q, rel, la2, lb2, o2, e.1, loc_b, way, inner);
            assert(seq![rel] + o2 + way =~= seq![rel] + offsets + tail);
            lemma_walk2_over_contains(ptrs, q, e.1, locs_b, (left - 1) as nat, way, inner, k, hit);
            let over = joint::walk2_over(ptrs, q, e.1, locs_b, (left - 1) as nat, way, inner);
            let m = choose|m: int| 0 <= m < over.len() && over[m] == hit;
            assert(step[m + 1] == hit);
        }
    }
    let i = choose|i: int| 0 <= i < ptrs.len() && ptrs[i] == e;
    assert(near(e));
    ptrs.lemma_filter_contains(near, i);
    let c = choose|c: int| 0 <= c < cands.len() && cands[c] == e;
    lemma_walk2_each_contains(ptrs, q, ca, cb, cands, left, tail, inner, c, hit);
}

proof fn lemma_walk2_over_contains(
    ptrs: Seq<Pointer>,
    q: Roots,
    ca: usize,
    locs_b: Seq<usize>,
    left: nat,
    tail: Seq<usize>,
    on_path: Set<(usize, usize)>,
    k: int,
    hit: Option<Seq<usize>>,
)
    requires
        0 <= k < locs_b.len(),
        joint::walk2(ptrs, q, ca, locs_b[k], left, tail, on_path).contains(hit),
    ensures
        joint::walk2_over(ptrs, q, ca, locs_b, left, tail, on_path).contains(hit),
    decreases locs_b.len(),
{
    let all = joint::walk2_over(ptrs, q, ca, locs_b, left, tail, on_path);
    let before = joint::walk2_over(ptrs, q, ca, locs_b.drop_last(), left, tail, on_path);
    let last = joint::walk2(ptrs, q, ca, locs_b.last(), left, tail, on_path);
    if k == locs_b.len() - 1 {
        let m = choose|m: int| 0 <= m < last.len() && last[m] == hit;
        assert(all[before.len() + m] == hit);
    } else {
        lemma_walk2_over_contains(ptrs, q, ca, locs_b.drop_last(), left, tail, on_path, k, hit);
        let m = choose|m: int| 0 <= m < before.len() && before[m] == hit;
        assert(all[m] == hit);
    }
}

proof fn lemma_walk2_each_contains(
    ptrs: Seq<Pointer>,
    q: Roots,
    ca: usize,
    cb: usize,
    cands: Seq<Pointer>,
    left: nat,
    tail: Seq<usize>,
    on_path: Set<(usize, usize)>,
    k: int,
    hit: Option<Seq<usize>>,
)
    requires
        0 <= k < cands.len(),
        joint::walk2_one(ptrs, q, ca, cb, cands[k], left, tail, on_path).contains(hit),
    ensures
        joint::walk2_each(ptrs, q, ca, cb, cands, left, tail, on_path).contains(hit),
    decreases cands.len(),
{
    let all = joint::walk2_each(ptrs, q, ca, cb, cands, left, tail, on_path);
    let before = joint::walk2_each(ptrs, q, ca, cb, cands.drop_last(), left, tail, on_path);
    let last = joint::walk2_one(ptrs, q, ca, cb, cands.last(), left, tail, on_path);
    if k == cands.len() - 1 {
        let m = choose|m: int| 0 <= m < last.len() && last[m] == hit;
        assert(all[before.len() + m] == hit);
    } else {
        lemma_walk2_each_contains(
            ptrs,
            q,
            ca,
            cb,
            cands.drop_last(),
            left,
            tail,
            on_path,
            k,
            hit,
        );
        let m = choose|m: int| 0 <= m < before.len() && before[m] == hit;
        assert(all[m] == hit);
    }
}

/// The paths completed are those of the visits that complete one.
proof fn lemma_completed2_contains(visits: Seq<Option<Seq<usize>>>, p: Seq<usize>)
    ensures
        joint::completed2(visits).contains(p) <==> visits.contains(Some(p)),
    decreases visits.len(),
{
    let all = joint::completed2(visits);
    if visits.len() > 0 {
        let init = visits.drop_last();
        let part = joint::completed2(init);
        lemma_completed2_contains(init, p);
        if all.contains(p) {
            let i = choose|i: int| 0 <= i < all.len() && all[i] == p;
            if i < part.len() {
                assert(part[i] == p);
                assert(init.contains(Some(p)));
                let j = choose|j: int| 0 <= j < init.len() && init[j] == Some(p);
                assert(visits[j] == Some(p));
            } else {
                assert(visits[visits.len() - 1] == Some(p));
            }
        }
        if visits.contains(Some(p)) {
            let j = choose|j: int| 0 <= j < visits.len() && visits[j] == Some(p);
            if j < init.len() {
                assert(init[j] == Some(p));
                assert(part.contains(p));
                let i = choose|i: int| 0 <= i < part.len() && part[i] == p;
                assert(all[i] == p);
            } else {
                assert(all[all.len() - 1] == p);
            }
        }
    }
}

/// A path that the joint scan returns leads, by the same offsets, from both roots to their targets.
pub proof fn joint_is_sound(
    ptrs: Seq<Pointer>,
    q: Roots,
    target_a: usize,
    target_b: usize,
    max_depth: nat,
    path: Seq<usize>,
)
    requires
        joint::path_within(ptrs, q, target_a, target_b, max_depth) == Some(path),
    ensures
        2 <= path.len() <= max_depth + 1,
        exists|la: Seq<usize>, lb: Seq<usize>|
            is_shared(ptrs, q, path, la, lb, target_a, target_b),
    decreases max_depth,
{
    if joint::path_within(ptrs, q, target_a, target_b, (max_depth - 1) as nat) is Some {
        joint_is_sound(ptrs, q, target_a, target_b, (max_depth - 1) as nat, path);
    } else {
        let visits = joint::walk2(
            ptrs,
            q,
            target_a,
            target_b,
            max_depth,
            Seq::empty(),
            Set::empty(),
        );
        let kept = reverse::first(visits, joint::JOINT_BUDGET as int);
        let hits = joint::completed2(kept);
        assert(hits.contains(hits[0]));
        lemma_completed2_contains(kept, path);
        let n = choose|n: int| 0 <= n < kept.len() && kept[n] == Some(path);
        assert(visits[n] == Some(path));
        let (la, lb) = lemma_walk2_sound(
            ptrs,
            q,
            target_a,
            target_b,
            max_depth,
            Seq::empty(),
            Set::empty(),
            n,
        );
        assert(path.subrange(1, max_depth as int + 1) =~= path.subrange(1, path.len() as int));
        assert(is_shared(ptrs, q, path, la, lb, target_a, target_b));
    }
}

/// No walk of the joint scan visits more candidates than its budget.
pub open spec fn budget_suffices(
    ptrs: Seq<Pointer>,
    q: Roots,
    target_a: usize,
    target_b: usize,
    max_depth: nat,
) -> bool {
    forall|depth: nat|
        1 <= depth <= max_depth ==> (#[trigger] joint::walk2(
            ptrs,
            q,
            target_a,
            target_b,
            depth,
            Seq::empty(),
            Set::empty(),
        )).len() <= joint::JOINT_BUDGET
}

/// A shared path that comes by a pair of addresses twice can be cut to a shorter one.
proof fn lemma_cut_shared(
    ptrs: Seq<Pointer>,
    q: Roots,
    path: Seq<usize>,
    la: Seq<usize>,
    lb: Seq<usize>,
    target_a: usize,
    target_b: usize,
    i: int,
    j: int,
) -> (cut: (Seq<usize>, Seq<usize>, Seq<usize>))
    requires
        is_shared(ptrs, q, path, la, lb, target_a, target_b),
        1 <= i < j <= la.len(),
        chain::next_stop(la, target_a, i - 1) == chain::next_stop(la, target_a, j - 1),
        chain::next_stop(lb, target_b, i - 1) == chain::next_stop(lb, target_b, j - 1),
    ensures
        is_shared(ptrs, q, cut.0, cut.1, cut.2, target_a, target_b),
        cut.0.len() == path.len() - (j - i),
{
    let offsets = path.subrange(1, path.len() as int);
    let o2 = offsets.take(i) + offsets.skip(j);
    let p2 = seq![path[0]] + o2;
    let la2 = la.take(i) + la.skip(j);
    let lb2 = lb.take(i) + lb.skip(j);
    chain::lemma_cut(ptrs, la, offsets, target_a, i, j);
    chain::lemma_cut(ptrs, lb, offsets, target_b, i, j);
    assert(p2.subrange(1, p2.len() as int) =~= o2);
    assert forall|k: int| 0 <= k < o2.len() implies #[trigger] o2[k] <= q.max_offset by {
        let n = if k < i {
            k
        } else {
            k - i + j
        };
        assert(o2[k] == offsets[n]);
    }
    (p2, la2, lb2)
}

/// Where the budget does not cut it short, the joint scan returns a path whenever the two pairs
/// share one within the depth, and no shared path is shorter than the one returned.
pub proof fn joint_is_shortest(
    ptrs: Seq<Pointer>,
    q: Roots,
    target_a: usize,
    target_b: usize,
    max_depth: nat,
    path: Seq<usize>,
    la: Seq<usize>,
    lb: Seq<usize>,
)
    requires
        budget_suffices(ptrs, q, target_a, target_b, max_depth),
        is_shared(ptrs, q, path, la, lb, target_a, target_b),
        path.len() <= max_depth + 1,
    ensures
        joint::path_within(ptrs, q, target_a, target_b, max_depth) matches Some(p) && p.len()
            <= path.len(),
    decreases path.len(), max_depth,
{
    let depth = (path.len() - 1) as nat;
    let stop_a = |k: int| chain::next_stop(la, target_a, k - 1);
    let stop_b = |k: int| chain::next_stop(lb, target_b, k - 1);
    if exists|i: int, j: int|
        1 <= i < j <= depth && #[trigger] stop_a(i) == #[trigger] stop_a(j) && stop_b(i) == stop_b(
            j,
        ) {
        let (i, j) = choose|i: int, j: int|
            1 <= i < j <= depth && #[trigger] stop_a(i) == #[trigger] stop_a(j) && stop_b(i)
                == stop_b(j);
        let (p2, la2, lb2) = lemma_cut_shared(
            ptrs,
            q,
            path,
            la,
            lb,
            target_a,
            target_b,
            i,
            j,
        );
        joint_is_shortest(ptrs, q, target_a, target_b, max_depth, p2, la2, lb2);
    } else if depth < max_depth {
        assert(budget_suffices(ptrs, q, target_a, target_b, (max_depth - 1) as nat));
        joint_is_shortest(ptrs, q, target_a, target_b, (max_depth - 1) as nat, path, la, lb);
    } else {
        match joint::path_within(ptrs, q, target_a, target_b, (max_depth - 1) as nat) {
            Some(p) => {
                joint_is_sound(ptrs, q, target_a, target_b, (max_depth - 1) as nat, p);
            },
            None => {
                let visits = joint::walk2(
                    ptrs,
                    q,
                    target_a,
                    target_b,
                    max_depth,
                    Seq::empty(),
                    Set::empty(),
                );
                let offsets = path.subrange(1, path.len() as int);
                assert(is_fresh(la, lb, target_a, target_b, Set::empty())) by {
                    assert forall|i: int|
                        #![trigger la[i]]
                        1 <= i < la.len() implies (la[i], lb[i]) != (target_a, target_b) by {
                        assert(stop_a(i) == la[i] && stop_a(depth as int) == target_a);
                        assert(stop_b(i) == lb[i] && stop_b(depth as int) == target_b);
                    }
                    assert forall|i: int, j: int|
                        #![trigger la[i], la[j]]
                        1 <= i < j < la.len() implies (la[i], lb[i]) != (la[j], lb[j]) by {
                        assert(stop_a(i) == la[i] && stop_a(j) == la[j]);
                        assert(stop_b(i) == lb[i] && stop_b(j) == lb[j]);
                    }
                }
                lemma_walk2_complete(
                    ptrs,
                    q,
                    path[0],
                    la,
                    lb,
                    offsets,
                    target_a,
                    target_b,
                    Seq::empty(),
                    Set::empty(),
                );
                assert(seq![path[0]] + offsets + Seq::empty() =~= path);
                assert(reverse::first(visits, joint::JOINT_BUDGET as int) =~= visits);
                lemma_completed2_contains(visits, path);
                let hits = joint::completed2(visits);
                assert(hits.len() > 0);
                joint_is_sound(ptrs, q, target_a, target_b, max_depth, hits[0]);
            },
        }
    }
}

/// The roots of a joint scan of an image with itself.
pub open spec fn twice(g: Graph) -> Roots {
    Roots {
        root_a: g.image.base,
        root_b: g.image.base,
        window: g.image.size,
        max_offset: g.max_offset,
    }
}

/// A shortest shared path of an image with itself is a route of the reverse scan.
proof fn lemma_shortest_is_walk(
    g: Graph,
    target: usize,
    max_depth: nat,
    path: Seq<usize>,
    locs: Seq<usize>,
)
    requires
        budget_suffices(g.ptrs, twice(g), target, target, max_depth),
        joint::path_within(g.ptrs, twice(g), target, target, max_depth) == Some(path),
        path.len() <= max_depth + 1,
        is_shared(g.ptrs, twice(g), path, locs, locs, target, target),
    ensures
        chain::leads_to(g, (path[0], path.subrange(1, path.len() as int)), locs, target),
{
    let q = twice(g);
    let offsets = path.subrange(1, path.len() as int);
    let n = locs.len() as int;
    assert forall|i: int, j: int| 1 <= i < j <= n implies #[trigger] chain::next_stop(
        locs,
        target,
        i - 1,
    ) != #[trigger] chain::next_stop(locs, target, j - 1) by {
        if chain::next_stop(locs, target, i - 1) == chain::next_stop(locs, target, j - 1) {
            let (p2, la2, lb2) = lemma_cut_shared(
                g.ptrs,
                q,
                path,
                locs,
                locs,
                target,
                target,
                i,
                j,
            );
            joint_is_shortest(g.ptrs, q, target, target, max_depth, p2, la2, lb2);
        }
    }
    assert forall|i: int| 1 <= i < n implies !g.image.holds(#[trigger] locs[i]) && locs[i]
        != target by {
        assert(chain::next_stop(locs, target, i - 1) == locs[i]);
        assert(chain::next_stop(locs, target, n - 1) == target);
        if g.image.holds(locs[i]) {
            let rel = (locs[i] - g.image.base) as usize;
            let o2 = offsets.skip(i);
            let p2 = seq![rel] + o2;
            chain::lemma_chain_from(g.ptrs, locs, offsets, target, i);
            assert(p2.subrange(1, p2.len() as int) =~= o2);
            assert forall|k: int| 0 <= k < o2.len() implies #[trigger] o2[k] <= q.max_offset by {
                assert(o2[k] == offsets[i + k]);
            }
            assert(is_shared(g.ptrs, q, p2, locs.skip(i), locs.skip(i), target, target));
            joint_is_shortest(
                g.ptrs,
                q,
                target,
                target,
                max_depth,
                p2,
                locs.skip(i),
                locs.skip(i),
            );
        }
    }
    assert forall|i: int, j: int|
        #![trigger locs[i], locs[j]]
        1 <= i < j < n implies locs[i] != locs[j] by {
        assert(chain::next_stop(locs, target, i - 1) == locs[i]);
        assert(chain::next_stop(locs, target, j - 1) == locs[j]);
    }
}

/// Where no location stands in the map twice, and neither a budget nor the cap cuts a scan short,
/// the joint scan of the image with itself finds a path exactly if the reverse scan finds one: of
/// the depth of the shortest, and among those that the reverse scan yields.
pub proof fn joint_with_itself_agrees(
    g: Graph,
    target: usize,
    opts: ScanOpts,
    found: Seq<Route>,
)
    requires
        chain::located_once(g.ptrs),
        reverse::scan_yields(g, target, opts, found),
        chain::budget_suffices(g, target, opts),
        reverse::routes_to(g, target, opts.node_budget, opts.max_depth as nat).len()
            <= opts.max_results,
        budget_suffices(g.ptrs, twice(g), target, target, opts.max_depth as nat),
    ensures
        match joint::path_within(g.ptrs, twice(g), target, target, opts.max_depth as nat) {
            Some(p) => {
                &&& found.len() > 0
                &&& p.len() == path::route_depth(found[0]) + 1
                &&& found.contains((p[0], p.subrange(1, p.len() as int)))
            },
            None => found.len() == 0,
        },
{
    let q = twice(g);
    let depth = opts.max_depth as nat;
    let joint_path = joint::path_within(g.ptrs, q, target, target, depth);
    if found.len() > 0 {
        let r = found[0];
        assert(found.contains(r));
        chain::scan_is_sound(g, target, opts, found, r);
        let locs = choose|locs: Seq<usize>| chain::leads_to(g, r, locs, target);
        let path = seq![r.0] + r.1;
        assert(path.subrange(1, path.len() as int) =~= r.1);
        assert(is_shared(g.ptrs, q, path, locs, locs, target, target));
        joint_is_shortest(g.ptrs, q, target, target, depth, path, locs, locs);
    }
    if joint_path is Some {
        let p = joint_path->Some_0;
        joint_is_sound(g.ptrs, q, target, target, depth, p);
        let (la, lb) = choose|la: Seq<usize>, lb: Seq<usize>|
            is_shared(g.ptrs, q, p, la, lb, target, target);
        let offsets = p.subrange(1, p.len() as int);
        assert forall|i: int| 0 <= i < la.len() implies la[i] == lb[i] by {
            chain::lemma_same_chain(g.ptrs, la, lb, offsets, target, target, i);
        }
        assert(la =~= lb);
        lemma_shortest_is_walk(g, target, depth, p, la);
        let r = (p[0], offsets);
        chain::scan_is_complete(g, target, opts, found, r, la);
        chain::scan_is_ordered(g, target, opts, found);
        let k = choose|k: int| 0 <= k < found.len() && found[k] == r;
        assert(path::route_depth(found[0]) <= path::route_depth(found[k]));
    }
}

/// A joint walk of the image with itself visits no less than the reverse scan's walk.
proof fn lemma_walk_no_longer(
    g: Graph,
    target: usize,
    left: nat,
    tail: Seq<usize>,
    on_path: Set<usize>,
    pairs: Set<(usize, usize)>,
)
    requires
        forall|x: usize| #[trigger] pairs.contains((x, x)) ==> on_path.contains(x),
    ensures
        reverse::walk(g, target, left, tail, on_path).len() <= joint::walk2(
            g.ptrs,
            twice(g),
            target,
            target,
            left,
            tail,
            pairs,
        ).len(),
    decreases left, 1nat, 0nat,
{
    if left > 0 && !on_path.contains(target) {
        let near = pointers::valued(target - g.max_offset, target as int);
        let cands = g.ptrs.filter(near);
        assert(!pairs.contains((target, target)));
        assert forall|k: int| 0 <= k < cands.len() implies g.ptrs.contains(#[trigger] cands[k])
            && cands[k].0 <= target by {
            g.ptrs.lemma_filter_pred(near, k);
            assert(cands.contains(cands[k]));
            g.ptrs.lemma_filter_contains_rev(near, cands[k]);
        }
        lemma_walk_each_no_longer(
            g,
            target,
            cands,
            left,
            tail,
            on_path.insert(target),
            pairs.insert((target, target)),
        );
    }
}

proof fn lemma_walk_each_no_longer(
    g: Graph,
    target: usize,
    cands: Seq<Pointer>,
    left: nat,
    tail: Seq<usize>,
    on_path: Set<usize>,
    pairs: Set<(usize, usize)>,
)
    requires
        left > 0,
        forall|x: usize| #[trigger] pairs.contains((x, x)) ==> on_path.contains(x),
        forall|k: int|
            0 <= k < cands.len() ==> g.ptrs.contains(#[trigger] cands[k]) && cands[k].0 <= target,
    ensures
        reverse::walk_each(g, target, cands, left, tail, on_path).len() <= joint::walk2_each(
            g.ptrs,
            twice(g),
            target,
            target,
            cands,
            left,
            tail,
            pairs,
        ).len(),
    decreases left, 0nat, cands.len(),
{
    if cands.len() > 0 {
        let q = twice(g);
        let init = cands.drop_last();
        let e = cands[cands.len() - 1];
        let off = target - e.0;
        let rest = seq![off as usize] + tail;
        let locs = joint::holders(g.ptrs, target - off);
        let next = (left - 1) as nat;
        let step = reverse::walk_one(g, target, e, left, tail, on_path);
        let step2 = joint::walk2_one(g.ptrs, q, target, target, e, left, tail, pairs);
        lemma_walk_each_no_longer(g, target, init, left, tail, on_path, pairs);
        lemma_holders(g.ptrs, target - off, e.1);
        assert(step.len() <= step2.len()) by {
            if !g.image.holds(e.1) {
                let k = choose|k: int| 0 <= k < locs.len() && locs[k] == e.1;
                lemma_walk_no_longer(g, e.1, next, rest, on_path, pairs);
                lemma_over_no_shorter(g.ptrs, q, e.1, locs, next, rest, pairs, k);
                assert(step == seq![None] + reverse::walk(g, e.1, next, rest, on_path));
                assert(step2 == seq![None] + joint::walk2_over(
                    g.ptrs,
                    q,
                    e.1,
                    locs,
                    next,
                    rest,
                    pairs,
                ));
            }
        }
    }
}

proof fn lemma_over_no_shorter(
    ptrs: Seq<Pointer>,
    q: Roots,
    ca: usize,
    locs_b: Seq<usize>,
    left: nat,
    tail: Seq<usize>,
    on_path: Set<(usize, usize)>,
    k: int,
)
    requires
        0 <= k < locs_b.len(),
    ensures
        joint::walk2(ptrs, q, ca, locs_b[k], left, tail, on_path).len() <= joint::walk2_over(
            ptrs,
            q,
            ca,
            locs_b,
            left,
            tail,
            on_path,
        ).len(),
    decreases locs_b.len(),
{
    if k < locs_b.len() - 1 {
        lemma_over_no_shorter(ptrs, q, ca, locs_b.drop_last(), left, tail, on_path, k);
    }
}

/// The walks of the reverse scan visit no more than the joint budget allows per depth.
proof fn lemma_visits_bounded(g: Graph, target: usize, max_depth: nat, depth: nat)
    requires
        budget_suffices(g.ptrs, twice(g), target, target, max_depth),
        depth <= max_depth,
    ensures
        reverse::visits_to(g, target, depth).len() <= depth * joint::JOINT_BUDGET,
    decreases depth,
{
    if depth > 0 {
        lemma_visits_bounded(g, target, max_depth, (depth - 1) as nat);
        lemma_walk_no_longer(g, target, depth, Seq::empty(), Set::empty(), Set::empty());
        assert(joint::walk2(
            g.ptrs,
            twice(g),
            target,
            target,
            depth,
            Seq::empty(),
            Set::empty(),
        ).len() <= joint::JOINT_BUDGET);
        assert((depth - 1) * joint::JOINT_BUDGET + joint::JOINT_BUDGET == depth
            * joint::JOINT_BUDGET) by (nonlinear_arith);
    }
}

/// A joint walk takes a visit for each dereference of a path that it completes.
proof fn lemma_visit_per_step(
    ptrs: Seq<Pointer>,
    q: Roots,
    ca: usize,
    cb: usize,
    left: nat,
    tail: Seq<usize>,
    on_path: Set<(usize, usize)>,
    n: int,
)
    requires
        0 <= n < joint::walk2(ptrs, q, ca, cb, left, tail, on_path).len(),
        joint::walk2(ptrs, q, ca, cb, left, tail, on_path)[n] is Some,
    ensures
        left <= n + 1,
    decreases left, 2nat, 0nat,
{
    let near = pointers::valued(ca - q.max_offset, ca as int);
    lemma_visit_per_step_each(
        ptrs,
        q,
        ca,
        cb,
        ptrs.filter(near),
        left,
        tail,
        on_path.insert((ca, cb)),
        n,
    );
}

proof fn lemma_visit_per_step_each(
    ptrs: Seq<Pointer>,
    q: Roots,
    ca: usize,
    cb: usize,
    cands: Seq<Pointer>,
    left: nat,
    tail: Seq<usize>,
    on_path: Set<(usize, usize)>,
    n: int,
)
    requires
        left > 0,
        0 <= n < joint::walk2_each(ptrs, q, ca, cb, cands, left, tail, on_path).len(),
        joint::walk2_each(ptrs, q, ca, cb, cands, left, tail, on_path)[n] is Some,
    ensures
        left <= n + 1,
    decreases left, 1nat, cands.len(),
{
    let before = joint::walk2_each(ptrs, q, ca, cb, cands.drop_last(), left, tail, on_path);
    if n < before.len() {
        lemma_visit_per_step_each(ptrs, q, ca, cb, cands.drop_last(), left, tail, on_path, n);
    } else if left > 1 {
        let e = cands.last();
        let m = n - before.len();
        let off = ca - e.0;
        let way = seq![off as usize] + tail;
        let locs_b = joint::holders(ptrs, cb - off);
        let step = joint::walk2_one(ptrs, q, ca, cb, e, left, tail, on_path);
        let over = joint::walk2_over(ptrs, q, e.1, locs_b, (left - 1) as nat, way, on_path);
        assert(step[m] is Some);
        assert(step[m] == over[m - 1]);
        lemma_visit_per_step_over(
            ptrs,
            q,
            e.1,
            locs_b,
            (left - 1) as nat,
            way,
            on_path,
            m - 1,
        );
    }
}

proof fn lemma_visit_per_step_over(
    ptrs: Seq<Pointer>,
    q: Roots,
    ca: usize,
    locs_b: Seq<usize>,
    left: nat,
    tail: Seq<usize>,
    on_path: Set<(usize, usize)>,
    n: int,
)
    requires
        0 <= n < joint::walk2_over(ptrs, q, ca, locs_b, left, tail, on_path).len(),
        joint::walk2_over(ptrs, q, ca, locs_b, left, tail, on_path)[n] is Some,
    ensures
        left <= n + 1,
    decreases left, 3nat, locs_b.len(),
{
    let before = joint::walk2_over(ptrs, q, ca, locs_b.drop_last(), left, tail, on_path);
    if n < before.len() {
        lemma_visit_per_step_over(ptrs, q, ca, locs_b.drop_last(), left, tail, on_path, n);
    } else {
        lemma_visit_per_step(
            ptrs,
            q,
            ca,
            locs_b.last(),
            left,
            tail,
            on_path,
            n - before.len(),
        );
    }
}

/// A path that the joint scan returns has no more dereferences than the budget has visits.
proof fn lemma_depth_bounded(
    ptrs: Seq<Pointer>,
    q: Roots,
    target_a: usize,
    target_b: usize,
    max_depth: nat,
    path: Seq<usize>,
)
    requires
        joint::path_within(ptrs, q, target_a, target_b, max_depth) == Some(path),
    ensures
        path.len() - 1 <= joint::JOINT_BUDGET,
    decreases max_depth,
{
    if joint::path_within(ptrs, q, target_a, target_b, (max_depth - 1) as nat) is Some {
        lemma_depth_bounded(ptrs, q, target_a, target_b, (max_depth - 1) as nat, path);
    } else {
        joint_is_sound(ptrs, q, target_a, target_b, max_depth, path);
        let visits = joint::walk2(
            ptrs,
            q,
            target_a,
            target_b,
            max_depth,
            Seq::empty(),
            Set::empty(),
        );
        let kept = reverse::first(visits, joint::JOINT_BUDGET as int);
        let hits = joint::completed2(kept);
        assert(hits.contains(hits[0]));
        lemma_completed2_contains(kept, path);
        let n = choose|n: int| 0 <= n < kept.len() && kept[n] == Some(path);
        assert(visits[n] == Some(path));
        lemma_visit_per_step(
            ptrs,
            q,
            target_a,
            target_b,
            max_depth,
            Seq::empty(),
            Set::empty(),
            n,
        );
    }
}

/// Where no location stands in the map twice and the joint budget suffices, the joint scan of the
/// image with itself agrees with the reverse scan under any bounds that are no smaller than the
/// square of the joint budget, such as the largest there are on a 64-bit machine: it finds a path
/// exactly if the reverse scan finds one, of the depth of the shortest, and among those that the
/// reverse scan yields.
pub proof fn joint_with_itself_agrees_under_wide_bounds(
    g: Graph,
    target: usize,
    opts: ScanOpts,
    found: Seq<Route>,
)
    requires
        chain::located_once(g.ptrs),
        reverse::scan_yields(g, target, opts, found),
        opts.node_budget > joint::JOINT_BUDGET * joint::JOINT_BUDGET,
        opts.max_results >= joint::JOINT_BUDGET * joint::JOINT_BUDGET,
        budget_suffices(g.ptrs, twice(g), target, target, opts.max_depth as nat),
    ensures
        match joint::path_within(g.ptrs, twice(g), target, target, opts.max_depth as nat) {
            Some(p) => {
                &&& found.len() > 0
                &&& p.len() == path::route_depth(found[0]) + 1
                &&& found.contains((p[0], p.subrange(1, p.len() as int)))
            },
            None => found.len() == 0,
        },
{
    let q = twice(g);
    let max_depth = opts.max_depth as nat;
    let joint_path = joint::path_within(g.ptrs, q, target, target, max_depth);
    if found.len() > 0 {
        let r = found[0];
        assert(found.contains(r));
        chain::scan_is_sound(g, target, opts, found, r);
        let locs = choose|locs: Seq<usize>| chain::leads_to(g, r, locs, target);
        let path = seq![r.0] + r.1;
        assert(path.subrange(1, path.len() as int) =~= r.1);
        assert(is_shared(g.ptrs, q, path, locs, locs, target, target));
        joint_is_shortest(g.ptrs, q, target, target, max_depth, path, locs, locs);
    }
    if joint_path is Some {
        let p = joint_path->Some_0;
        joint_is_sound(g.ptrs, q, target, target, max_depth, p);
        let (la, lb) = choose|la: Seq<usize>, lb: Seq<usize>|
            is_shared(g.ptrs, q, p, la, lb, target, target);
        let offsets = p.subrange(1, p.len() as int);
        assert forall|i: int| 0 <= i < la.len() implies la[i] == lb[i] by {
            chain::lemma_same_chain(g.ptrs, la, lb, offsets, target, target, i);
        }
        assert(la =~= lb);
        lemma_shortest_is_walk(g, target, max_depth, p, la);
        let r = (p[0], offsets);
        let depth = offsets.len();
        // the visits and routes up to the depth of the path are within the bounds
        let shallow = ScanOpts { max_depth: depth as usize, ..opts };
        lemma_depth_bounded(g.ptrs, q, target, target, max_depth, p);
        lemma_visits_bounded(g, target, max_depth, depth);
        assert(depth * joint::JOINT_BUDGET <= joint::JOINT_BUDGET * joint::JOINT_BUDGET)
            by (nonlinear_arith)
            requires
                depth <= joint::JOINT_BUDGET,
        ;
        let visits = reverse::visits_to(g, target, depth);
        assert(chain::budget_suffices(g, target, shallow));
        chain::lemma_routes_to_complete(g, target, shallow, depth, r, la);
        let some = reverse::routes_to(g, target, opts.node_budget, depth);
        let all = reverse::routes_to(g, target, opts.node_budget, max_depth);
        let k = choose|k: int| 0 <= k < some.len() && some[k] == r;
        chain::lemma_completed_length(reverse::first(visits, opts.node_budget - 1));
        chain::lemma_routes_to_prefix(g, target, opts.node_budget, depth, max_depth);
        assert(all[k] == r);
        assert(reverse::collected(g, target, opts)[k] == r);
        chain::lemma_scan_members(g, target, opts, found, r);
        chain::scan_is_ordered(g, target, opts, found);
        let m = choose|m: int| 0 <= m < found.len() && found[m] == r;
        assert(path::route_depth(found[0]) <= path::route_depth(found[m]));
    }
}

/// What the bounds come to on a 64-bit machine: with the largest there are, the joint scan of the
/// image with itself agrees with the reverse scan.
pub proof fn joint_with_itself_agrees_uncapped(
    g: Graph,
    target: usize,
    opts: ScanOpts,
    found: Seq<Route>,
)
    requires
        usize::BITS == 64,
        chain::located_once(g.ptrs),
        reverse::scan_yields(g, target, opts, found),
        opts.node_budget == usize::MAX,
        opts.max_results == usize::MAX,
        budget_suffices(g.ptrs, twice(g), target, target, opts.max_depth as nat),
    ensures
        match joint::path_within(g.ptrs, twice(g), target, target, opts.max_depth as nat) {
            Some(p) => {
                &&& found.len() > 0
                &&& p.len() == path::route_depth(found[0]) + 1
                &&& found.contains((p[0], p.subrange(1, p.len() as int)))
            },
            None => found.len() == 0,
        },
{
    assert(joint::JOINT_BUDGET * joint::JOINT_BUDGET == 400_000_000_000_000) by (nonlinear_arith);
    joint_with_itself_agrees_under_wide_bounds(g, target, opts, found);
}

} // verus!
