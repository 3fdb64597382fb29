//! What the joint scan visits, trail by trail, and which path it therefore returns.
//!
//! A trail of two decks lists pointers of the map by their places in it, from the targets outwards,
//! those of the first deck and of the second in turn: one of the first deck that leads near the
//! address reached, one of the second that leads as near to the address reached there, and so on.
//! It ends with a pointer of the first deck.
use crate::joint;
use crate::joint::Roots;
use crate::pointers;
use crate::pointers::Pointer;
use crate::reverse;
use crate::shared;
use crate::trails;
use vstd::prelude::*;

verus! {

/// `ks` is a trail of two decks back from `ca` and `cb`: no pair of addresses is reached twice, nor
/// one of `on_path`.
pub open spec fn is_trail(
    ptrs: Seq<Pointer>,
    max_offset: usize,
    ca: usize,
    cb: usize,
    on_path: Set<(usize, usize)>,
    ks: Seq<int>,
) -> bool
    decreases ks.len(),
{
    &&& ks.len() > 0
    &&& !on_path.contains((ca, cb))
    &&& 0 <= ks[0] < ptrs.len()
    &&& ptrs[ks[0]].0 <= ca
    &&& ca - ptrs[ks[0]].0 <= max_offset
    &&& ks.len() > 1 ==> {
        &&& 0 <= ks[1] < ptrs.len()
        &&& ptrs[ks[1]].0 == cb - (ca - ptrs[ks[0]].0)
        &&& is_trail(
            ptrs,
            max_offset,
            ptrs[ks[0]].1,
            ptrs[ks[1]].1,
            on_path.insert((ca, cb)),
            ks.subrange(2, ks.len() as int),
        )
    }
}

/// The number of dereferences along a trail of two decks.
pub open spec fn steps(ks: Seq<int>) -> int {
    (ks.len() as int + 1) / 2
}

/// The last pointer of a trail stands in the first root, and a pointer of the second deck that leads
/// as near stands at the same distance from the second root.
pub open spec fn ends_at_roots(
    ptrs: Seq<Pointer>,
    q: Roots,
    ca: usize,
    cb: usize,
    ks: Seq<int>,
) -> bool
    decreases ks.len(),
{
    if ks.len() <= 1 {
        let e = ptrs[ks[0]];
        &&& q.root_a <= e.1
        &&& e.1 - q.root_a < q.window
        &&& exists|k: int|
            0 <= k < ptrs.len() && (#[trigger] ptrs[k]).0 == cb - (ca - e.0) && ptrs[k].1 - q.root_b
                == e.1 - q.root_a
    } else {
        ends_at_roots(
            ptrs,
            q,
            ptrs[ks[0]].1,
            ptrs[ks[1]].1,
            ks.subrange(2, ks.len() as int),
        )
    }
}

/// The path along a trail: the distance from the root, then the offsets behind each dereference.
pub open spec fn trail_path(ptrs: Seq<Pointer>, q: Roots, ca: usize, ks: Seq<int>) -> Seq<usize>
    decreases ks.len(),
{
    let off = (ca - ptrs[ks[0]].0) as usize;
    if ks.len() <= 1 {
        seq![(ptrs[ks[0]].1 - q.root_a) as usize, off]
    } else {
        trail_path(ptrs, q, ptrs[ks[0]].1, ks.subrange(2, ks.len() as int)).push(off)
    }
}

spec fn visit_of(
    ptrs: Seq<Pointer>,
    q: Roots,
    ca: usize,
    cb: usize,
    left: nat,
    tail: Seq<usize>,
    ks: Seq<int>,
) -> Option<Seq<usize>> {
    if steps(ks) == left && ends_at_roots(ptrs, q, ca, cb, ks) {
        Some(trail_path(ptrs, q, ca, ks) + tail)
    } else {
        None
    }
}

/// The visit and the trail go together.
spec fn fits(
    ptrs: Seq<Pointer>,
    q: Roots,
    ca: usize,
    cb: usize,
    left: nat,
    tail: Seq<usize>,
    on_path: Set<(usize, usize)>,
    ks: Seq<int>,
    visit: Option<Seq<usize>>,
) -> bool {
    &&& is_trail(ptrs, q.max_offset, ca, cb, on_path, ks)
    &&& steps(ks) <= left
    &&& visit == visit_of(ptrs, q, ca, cb, left, tail, ks)
}

spec fn in_order(keys: Seq<Seq<int>>) -> bool {
    forall|a: int, b: int|
        #![trigger keys[a], keys[b]]
        0 <= a < b < keys.len() ==> trails::comes_before(keys[a], keys[b])
}

/// `keys` are the trails of at most `left` dereferences whose first pointer has a place from `lo` up
/// to below `hi`, in order, and `visits` what they complete.
spec fn lists(
    ptrs: Seq<Pointer>,
    q: Roots,
    ca: usize,
    cb: usize,
    left: nat,
    tail: Seq<usize>,
    on_path: Set<(usize, usize)>,
    lo: int,
    hi: int,
    keys: Seq<Seq<int>>,
    visits: Seq<Option<Seq<usize>>>,
) -> bool {
    &&& keys.len() == visits.len()
    &&& forall|n: int|
        0 <= n < keys.len() ==> fits(
            ptrs,
            q,
            ca,
            cb,
            left,
            tail,
            on_path,
            #[trigger] keys[n],
            visits[n],
        ) && lo <= keys[n][0] < hi
    &&& in_order(keys)
    &&& forall|ks: Seq<int>| #[trigger]
        is_trail(ptrs, q.max_offset, ca, cb, on_path, ks) && steps(ks) <= left && lo <= ks[0] < hi
            ==> keys.contains(ks)
}

spec fn behind(k: int, ks: Seq<int>) -> Seq<int> {
    seq![k] + ks
}

proof fn lemma_behind(k: int, ks: Seq<int>)
    ensures
        behind(k, ks).len() == ks.len() + 1,
        behind(k, ks)[0] == k,
        behind(k, ks).subrange(1, ks.len() as int + 1) == ks,
        ks.len() > 0 ==> behind(k, ks)[1] == ks[0],
        ks.len() > 0 ==> behind(k, ks).subrange(2, ks.len() as int + 1) == ks.subrange(
            1,
            ks.len() as int,
        ),
{
    assert(behind(k, ks).subrange(1, ks.len() as int + 1) =~= ks);
    if ks.len() > 0 {
        assert(behind(k, ks).subrange(2, ks.len() as int + 1) =~= ks.subrange(1, ks.len() as int));
    }
}

/// What stands behind the first pointer of a trail: the pointer of the second deck, at a place below
/// `m`, that leads to `value`, and a trail from there.
spec fn goes_on(
    ptrs: Seq<Pointer>,
    q: Roots,
    ca: usize,
    value: int,
    left: nat,
    on_path: Set<(usize, usize)>,
    m: int,
    js: Seq<int>,
) -> bool {
    &&& js.len() > 1
    &&& 0 <= js[0] < m
    &&& ptrs[js[0]].0 == value
    &&& is_trail(
        ptrs,
        q.max_offset,
        ca,
        ptrs[js[0]].1,
        on_path,
        js.subrange(1, js.len() as int),
    )
    &&& steps(js.subrange(1, js.len() as int)) <= left
}

spec fn goes_on_to(
    ptrs: Seq<Pointer>,
    q: Roots,
    ca: usize,
    left: nat,
    tail: Seq<usize>,
    js: Seq<int>,
    visit: Option<Seq<usize>>,
) -> bool {
    visit == visit_of(
        ptrs,
        q,
        ca,
        ptrs[js[0]].1,
        left,
        tail,
        js.subrange(1, js.len() as int),
    )
}

/// The locations that hold `value`, of the first `m` pointers.
spec fn holders_below(ptrs: Seq<Pointer>, value: int, m: int) -> Seq<usize> {
    joint::holders(ptrs.take(m), value)
}

proof fn lemma_holders_below(ptrs: Seq<Pointer>, value: int, m: int)
    requires
        0 < m <= ptrs.len(),
    ensures
        ptrs[m - 1].0 == value ==> holders_below(ptrs, value, m) == holders_below(
            ptrs,
            value,
            m - 1,
        ).push(ptrs[m - 1].1),
        ptrs[m - 1].0 != value ==> holders_below(ptrs, value, m) == holders_below(
            ptrs,
            value,
            m - 1,
        ),
{
    reveal(Seq::filter);
    let keep = pointers::valued(value, value);
    assert(ptrs.take(m).drop_last() =~= ptrs.take(m - 1));
    assert(ptrs.take(m).last() == ptrs[m - 1]);
    if ptrs[m - 1].0 == value {
        assert(holders_below(ptrs, value, m) =~= holders_below(ptrs, value, m - 1).push(
            ptrs[m - 1].1,
        ));
    }
}

proof fn lemma_over_listed(
    ptrs: Seq<Pointer>,
    q: Roots,
    ca: usize,
    value: int,
    left: nat,
    tail: Seq<usize>,
    on_path: Set<(usize, usize)>,
    m: int,
) -> (keys: Seq<Seq<int>>)
    requires
        0 <= m <= ptrs.len(),
    ensures
        ({
            let visits = joint::walk2_over(
                ptrs,
                q,
                ca,
                holders_below(ptrs, value, m),
                left,
                tail,
                on_path,
            );
            &&& keys.len() == visits.len()
            &&& forall|n: int|
                0 <= n < keys.len() ==> goes_on(
                    ptrs,
                    q,
                    ca,
                    value,
                    left,
                    on_path,
                    m,
                    #[trigger] keys[n],
                ) && goes_on_to(ptrs, q, ca, left, tail, keys[n], visits[n])
            &&& in_order(keys)
            &&& forall|js: Seq<int>| #[trigger]
                goes_on(ptrs, q, ca, value, left, on_path, m, js) ==> keys.contains(js)
        }),
    decreases left, 3nat, m,
{
    if m == 0 {
        assert(holders_below(ptrs, value, 0) =~= Seq::empty()) by {
            reveal(Seq::filter);
            assert(ptrs.take(0) =~= Seq::empty());
        }
        Seq::empty()
    } else {
        let k = m - 1;
        let lb = ptrs[k].1;
        let before = lemma_over_listed(ptrs, q, ca, value, left, tail, on_path, k);
        let seen = joint::walk2_over(
            ptrs,
            q,
            ca,
            holders_below(ptrs, value, k),
            left,
            tail,
            on_path,
        );
        let all = joint::walk2_over(
            ptrs,
            q,
            ca,
            holders_below(ptrs, value, m),
            left,
            tail,
            on_path,
        );
        lemma_holders_below(ptrs, value, m);
        assert forall|n: int| 0 <= n < before.len() implies goes_on(
            ptrs,
            q,
            ca,
            value,
            left,
            on_path,
            m,
            #[trigger] before[n],
        ) by {
            assert(goes_on(ptrs, q, ca, value, left, on_path, k, before[n]));
        }
        if ptrs[k].0 == value {
            let sub = lemma_walk_listed(ptrs, q, ca, lb, left, tail, on_path);
            let visits = joint::walk2(ptrs, q, ca, lb, left, tail, on_path);
            let step = Seq::new(sub.len(), |n: int| behind(k, sub[n]));
            let keys = before + step;
            assert(holders_below(ptrs, value, m).drop_last() =~= holders_below(ptrs, value, k));
            assert(all == seen + visits);
            assert forall|n: int| 0 <= n < keys.len() implies goes_on(
                ptrs,
                q,
                ca,
                value,
                left,
                on_path,
                m,
                #[trigger] keys[n],
            ) && goes_on_to(ptrs, q, ca, left, tail, keys[n], all[n]) by {
                if n < before.len() {
                    assert(keys[n] == before[n] && all[n] == seen[n]);
                } else {
                    let i = n - before.len();
                    lemma_behind(k, sub[i]);
                    assert(keys[n] == behind(k, sub[i]) && all[n] == visits[i]);
                    assert(fits(ptrs, q, ca, lb, left, tail, on_path, sub[i], visits[i]));
                }
            }
            assert forall|a: int, b: int|
                #![trigger keys[a], keys[b]]
                0 <= a < b < keys.len() implies trails::comes_before(keys[a], keys[b]) by {
                if b < before.len() {
                    assert(keys[a] == before[a] && keys[b] == before[b]);
                } else {
                    let j = b - before.len();
                    lemma_behind(k, sub[j]);
                    assert(keys[b] == behind(k, sub[j]));
                    if a < before.len() {
                        assert(keys[a] == before[a]);
                        assert(goes_on(ptrs, q, ca, value, left, on_path, k, before[a]));
                    } else {
                        let i = a - before.len();
                        lemma_behind(k, sub[i]);
                        assert(keys[a] == behind(k, sub[i]));
                        assert(trails::comes_before(sub[i], sub[j]));
                    }
                }
            }
            assert forall|js: Seq<int>| #[trigger] goes_on(
                ptrs,
                q,
                ca,
                value,
                left,
                on_path,
                m,
                js,
            ) implies keys.contains(js) by {
                if js[0] < k {
                    assert(goes_on(ptrs, q, ca, value, left, on_path, k, js));
                    let i = choose|i: int| 0 <= i < before.len() && before[i] == js;
                    assert(keys[i] == js);
                } else {
                    let tl = js.subrange(1, js.len() as int);
                    assert(is_trail(ptrs, q.max_offset, ca, lb, on_path, tl));
                    let i = choose|i: int| 0 <= i < sub.len() && sub[i] == tl;
                    assert(behind(k, tl) =~= js);
                    assert(keys[before.len() + i] == js);
                }
            }
            keys
        } else {
            assert forall|js: Seq<int>| #[trigger] goes_on(
                ptrs,
                q,
                ca,
                value,
                left,
                on_path,
                m,
                js,
            ) implies before.contains(js) by {
                assert(goes_on(ptrs, q, ca, value, left, on_path, k, js));
            }
            before
        }
    }
}

proof fn lemma_one_listed(
    ptrs: Seq<Pointer>,
    q: Roots,
    ca: usize,
    cb: usize,
    m: int,
    left: nat,
    tail: Seq<usize>,
    on_path: Set<(usize, usize)>,
) -> (keys: Seq<Seq<int>>)
    requires
        left > 0,
        !on_path.contains((ca, cb)),
        0 <= m < ptrs.len(),
        ca - q.max_offset <= ptrs[m].0 <= ca,
    ensures
        lists(
            ptrs,
            q,
            ca,
            cb,
            left,
            tail,
            on_path,
            m,
            m + 1,
            keys,
            joint::walk2_one(ptrs, q, ca, cb, ptrs[m], left, tail, on_path.insert((ca, cb))),
        ),
    decreases left, 0nat, 0nat,
{
    let e = ptrs[m];
    let inner = on_path.insert((ca, cb));
    let off = (ca - e.0) as usize;
    let value = cb - off;
    let way = seq![off] + tail;
    let one = seq![m];
    let next = (left - 1) as nat;
    let visits = joint::walk2_one(ptrs, q, ca, cb, e, left, tail, inner);
    let locs_b = joint::holders(ptrs, value);
    assert(ptrs.take(ptrs.len() as int) =~= ptrs);
    let sub = if left > 1 {
        lemma_over_listed(ptrs, q, e.1, value, next, way, inner, ptrs.len() as int)
    } else {
        Seq::empty()
    };
    let over = joint::walk2_over(ptrs, q, e.1, locs_b, next, way, inner);
    if left == 1 {
        lemma_over_nothing(ptrs, q, e.1, locs_b, way, inner);
    }
    assert(sub.len() == over.len());
    // the first visit
    assert(visits.len() == 1 + over.len());
    assert(visits[0] == visit_of(ptrs, q, ca, cb, left, tail, one)) by {
        if left == 1 {
            if q.in_a(e.1) && locs_b.len() > 0 {
                let rel = e.1 - q.root_a;
                if exists|k: int|
                    0 <= k < locs_b.len() && #[trigger] locs_b[k] == q.root_b + rel as usize {
                    let k = choose|k: int|
                        0 <= k < locs_b.len() && #[trigger] locs_b[k] == q.root_b + rel as usize;
                    assert(locs_b.contains(locs_b[k]));
                    shared::lemma_holders(ptrs, value, locs_b[k]);
                    let j = choose|j: int|
                        0 <= j < ptrs.len() && ptrs[j] == (value as u64, locs_b[k]);
                    assert(ptrs[j].0 == value && ptrs[j].1 - q.root_b == rel);
                    assert(seq![rel as usize] + way =~= trail_path(ptrs, q, ca, one) + tail);
                }
            }
            if ends_at_roots(ptrs, q, ca, cb, one) {
                let j = choose|j: int|
                    0 <= j < ptrs.len() && (#[trigger] ptrs[j]).0 == cb - (ca - e.0) && ptrs[j].1
                        - q.root_b == e.1 - q.root_a;
                assert(ptrs[j] == (value as u64, ptrs[j].1));
                shared::lemma_holders(ptrs, value, ptrs[j].1);
                let k = choose|k: int| 0 <= k < locs_b.len() && locs_b[k] == ptrs[j].1;
                assert(locs_b[k] == q.root_b + (e.1 - q.root_a) as usize);
            }
        }
    }
    let keys = seq![one] + Seq::new(sub.len(), |n: int| behind(m, sub[n]));
    assert forall|n: int| 0 <= n < keys.len() implies fits(
        ptrs,
        q,
        ca,
        cb,
        left,
        tail,
        on_path,
        #[trigger] keys[n],
        visits[n],
    ) && m <= keys[n][0] < m + 1 by {
        if n > 0 {
            let js = sub[n - 1];
            let ks = keys[n];
            let tl = js.subrange(1, js.len() as int);
            lemma_behind(m, js);
            assert(ks == behind(m, js));
            assert(goes_on(ptrs, q, e.1, value, next, inner, ptrs.len() as int, js));
            assert(goes_on_to(ptrs, q, e.1, next, way, js, over[n - 1]));
            assert(visits[n] == over[n - 1]);
            assert(ks.subrange(2, ks.len() as int) == tl);
            assert(ks.len() == tl.len() + 2);
            assert(trail_path(ptrs, q, ca, ks) + tail =~= trail_path(ptrs, q, e.1, tl) + way);
        }
    }
    assert forall|a: int, b: int|
        #![trigger keys[a], keys[b]]
        0 <= a < b < keys.len() implies trails::comes_before(keys[a], keys[b]) by {
        lemma_behind(m, sub[b - 1]);
        assert(keys[b] == behind(m, sub[b - 1]));
        assert(goes_on(ptrs, q, e.1, value, next, inner, ptrs.len() as int, sub[b - 1]));
        if a == 0 {
            assert(one.subrange(1, 1) =~= Seq::empty());
            assert(trails::comes_before(one.subrange(1, 1), sub[b - 1]));
        } else {
            lemma_behind(m, sub[a - 1]);
            assert(keys[a] == behind(m, sub[a - 1]));
            assert(trails::comes_before(sub[a - 1], sub[b - 1]));
        }
    }
    assert forall|ks: Seq<int>| #[trigger]
        is_trail(ptrs, q.max_offset, ca, cb, on_path, ks) && steps(ks) <= left && m <= ks[0] < m
            + 1 implies keys.contains(ks) by {
        if ks.len() == 1 {
            assert(ks =~= one);
            assert(keys[0] == one);
        } else {
            let js = ks.subrange(1, ks.len() as int);
            let tl = ks.subrange(2, ks.len() as int);
            assert(js.subrange(1, js.len() as int) =~= tl);
            assert(js[0] == ks[1]);
            assert(is_trail(ptrs, q.max_offset, e.1, ptrs[ks[1]].1, inner, tl));
            assert(tl.len() > 0);
            assert(goes_on(ptrs, q, e.1, value, next, inner, ptrs.len() as int, js));
            let i = choose|i: int| 0 <= i < sub.len() && sub[i] == js;
            assert(behind(m, js) =~= ks);
            assert(keys[i + 1] == ks);
        }
    }
    keys
}

/// Walks that may go no further visit nothing.
proof fn lemma_over_nothing(
    ptrs: Seq<Pointer>,
    q: Roots,
    ca: usize,
    locs_b: Seq<usize>,
    tail: Seq<usize>,
    on_path: Set<(usize, usize)>,
)
    ensures
        joint::walk2_over(ptrs, q, ca, locs_b, 0, tail, on_path).len() == 0,
    decreases locs_b.len(),
{
    if locs_b.len() > 0 {
        lemma_over_nothing(ptrs, q, ca, locs_b.drop_last(), tail, on_path);
        assert(joint::walk2(ptrs, q, ca, locs_b.last(), 0, tail, on_path) =~= Seq::empty());
    }
}

proof fn lemma_each_listed(
    ptrs: Seq<Pointer>,
    q: Roots,
    ca: usize,
    cb: usize,
    m: int,
    left: nat,
    tail: Seq<usize>,
    on_path: Set<(usize, usize)>,
) -> (keys: Seq<Seq<int>>)
    requires
        left > 0,
        !on_path.contains((ca, cb)),
        0 <= m <= ptrs.len(),
    ensures
        lists(
            ptrs,
            q,
            ca,
            cb,
            left,
            tail,
            on_path,
            0,
            m,
            keys,
            joint::walk2_each(
                ptrs,
                q,
                ca,
                cb,
                ptrs.take(m).filter(pointers::valued(ca - q.max_offset, ca as int)),
                left,
                tail,
                on_path.insert((ca, cb)),
            ),
        ),
    decreases left, 1nat, m,
{
    reveal(Seq::filter);
    let near = pointers::valued(ca - q.max_offset, ca as int);
    let inner = on_path.insert((ca, cb));
    if m == 0 {
        let keys: Seq<Seq<int>> = Seq::empty();
        assert(ptrs.take(0).filter(near) =~= Seq::empty());
        keys
    } else {
        let k = m - 1;
        let e = ptrs[k];
        let before = lemma_each_listed(ptrs, q, ca, cb, k, left, tail, on_path);
        let cands = ptrs.take(m).filter(near);
        let init = ptrs.take(k).filter(near);
        let seen = joint::walk2_each(ptrs, q, ca, cb, init, left, tail, inner);
        let all = joint::walk2_each(ptrs, q, ca, cb, cands, left, tail, inner);
        assert(ptrs.take(m).drop_last() =~= ptrs.take(k));
        assert(ptrs.take(m).last() == e);
        if near(e) {
            let step = lemma_one_listed(ptrs, q, ca, cb, k, left, tail, on_path);
            let visits = joint::walk2_one(ptrs, q, ca, cb, e, left, tail, inner);
            let keys = before + step;
            assert(cands == init.push(e));
            assert(cands.drop_last() =~= init);
            assert(all == seen + visits);
            assert forall|n: int| 0 <= n < keys.len() implies fits(
                ptrs,
                q,
                ca,
                cb,
                left,
                tail,
                on_path,
                #[trigger] keys[n],
                all[n],
            ) && 0 <= keys[n][0] < m by {
                if n < before.len() {
                    assert(keys[n] == before[n] && all[n] == seen[n]);
                } else {
                    assert(keys[n] == step[n - before.len()]);
                    assert(all[n] == visits[n - before.len()]);
                }
            }
            assert forall|a: int, b: int|
                #![trigger keys[a], keys[b]]
                0 <= a < b < keys.len() implies trails::comes_before(keys[a], keys[b]) by {
                if b < before.len() {
                    assert(keys[a] == before[a] && keys[b] == before[b]);
                } else if a >= before.len() {
                    assert(keys[a] == step[a - before.len()]);
                    assert(keys[b] == step[b - before.len()]);
                } else {
                    assert(keys[a] == before[a] && keys[b] == step[b - before.len()]);
                    assert(is_trail(ptrs, q.max_offset, ca, cb, on_path, before[a]));
                    assert(is_trail(
                        ptrs,
                        q.max_offset,
                        ca,
                        cb,
                        on_path,
                        step[b - before.len()],
                    ));
                }
            }
            assert forall|ks: Seq<int>| #[trigger]
                is_trail(ptrs, q.max_offset, ca, cb, on_path, ks) && steps(ks) <= left && 0 <= ks[0]
                < m implies keys.contains(ks) by {
                if ks[0] < k {
                    let i = choose|i: int| 0 <= i < before.len() && before[i] == ks;
                    assert(keys[i] == ks);
                } else {
                    let i = choose|i: int| 0 <= i < step.len() && step[i] == ks;
                    assert(keys[before.len() + i] == ks);
                }
            }
            keys
        } else {
            assert(cands =~= init);
            assert forall|ks: Seq<int>| #[trigger]
                is_trail(ptrs, q.max_offset, ca, cb, on_path, ks) && steps(ks) <= left && 0 <= ks[0]
                < m implies before.contains(ks) by {
                assert(ks[0] != k);
            }
            before
        }
    }
}

proof fn lemma_walk_listed(
    ptrs: Seq<Pointer>,
    q: Roots,
    ca: usize,
    cb: usize,
    left: nat,
    tail: Seq<usize>,
    on_path: Set<(usize, usize)>,
) -> (keys: Seq<Seq<int>>)
    ensures
        lists(
            ptrs,
            q,
            ca,
            cb,
            left,
            tail,
            on_path,
            0,
            ptrs.len() as int,
            keys,
            joint::walk2(ptrs, q, ca, cb, left, tail, on_path),
        ),
    decreases left, 2nat, 0nat,
{
    if left == 0 || on_path.contains((ca, cb)) {
        let keys: Seq<Seq<int>> = Seq::empty();
        assert forall|ks: Seq<int>| #[trigger]
            is_trail(ptrs, q.max_offset, ca, cb, on_path, ks) && steps(ks) <= left && 0 <= ks[0]
            < ptrs.len() implies keys.contains(ks) by {}
        keys
    } else {
        assert(ptrs.take(ptrs.len() as int) =~= ptrs);
        lemma_each_listed(ptrs, q, ca, cb, ptrs.len() as int, left, tail, on_path)
    }
}

/// The joint walk of `depth` dereferences has this visit.
pub open spec fn is_visit(
    ptrs: Seq<Pointer>,
    q: Roots,
    target_a: usize,
    target_b: usize,
    depth: int,
    ks: Seq<int>,
) -> bool {
    steps(ks) <= depth && is_trail(ptrs, q.max_offset, target_a, target_b, Set::empty(), ks)
}

/// The joint walk of `depth` dereferences ends a path with this visit.
pub open spec fn ends_a_path(
    ptrs: Seq<Pointer>,
    q: Roots,
    target_a: usize,
    target_b: usize,
    depth: int,
    ks: Seq<int>,
) -> bool {
    &&& is_visit(ptrs, q, target_a, target_b, depth, ks)
    &&& steps(ks) == depth
    &&& ends_at_roots(ptrs, q, target_a, target_b, ks)
}

proof fn lemma_in_order_once(keys: Seq<Seq<int>>)
    requires
        in_order(keys),
    ensures
        keys.no_duplicates(),
{
    assert forall|a: int, b: int| 0 <= a < keys.len() && 0 <= b < keys.len() && a != b implies keys[a]
        != keys[b] by {
        trails::lemma_before_is_strict(keys[a], keys[b]);
        trails::lemma_before_is_strict(keys[b], keys[a]);
        if a < b {
            assert(trails::comes_before(keys[a], keys[b]));
        } else {
            assert(trails::comes_before(keys[b], keys[a]));
        }
    }
}

/// Where trails are listed in order, those up to the `n`-th are those at or before it.
proof fn lemma_up_to(keys: Seq<Seq<int>>, n: int, ks: Seq<int>)
    requires
        in_order(keys),
        0 <= n < keys.len(),
        keys.contains(ks),
        ks == keys[n] || trails::comes_before(ks, keys[n]),
    ensures
        keys.take(n + 1).contains(ks),
{
    let i = choose|i: int| 0 <= i < keys.len() && keys[i] == ks;
    trails::lemma_before_is_strict(ks, keys[n]);
    if i > n {
        assert(trails::comes_before(keys[n], keys[i]));
    }
    assert(keys.take(n + 1)[i] == ks);
}

/// The first of the paths completed is that of the first visit that completes one.
proof fn lemma_first_completed(visits: Seq<Option<Seq<usize>>>) -> (n: int)
    requires
        joint::completed2(visits).len() > 0,
    ensures
        0 <= n < visits.len(),
        visits[n] == Some(joint::completed2(visits)[0]),
        forall|i: int| 0 <= i < n ==> #[trigger] visits[i] is None,
    decreases visits.len(),
{
    let init = visits.drop_last();
    if joint::completed2(init).len() > 0 {
        let n = lemma_first_completed(init);
        assert(forall|i: int| 0 <= i < n ==> #[trigger] visits[i] == init[i]);
        n
    } else {
        lemma_nothing_completed(init);
        assert(forall|i: int| 0 <= i < init.len() ==> #[trigger] visits[i] == init[i]);
        visits.len() - 1
    }
}

proof fn lemma_nothing_completed(visits: Seq<Option<Seq<usize>>>)
    ensures
        joint::completed2(visits).len() == 0 <==> forall|i: int|
            0 <= i < visits.len() ==> #[trigger] visits[i] is None,
    decreases visits.len(),
{
    if visits.len() > 0 {
        let init = visits.drop_last();
        lemma_nothing_completed(init);
        assert(forall|i: int| 0 <= i < init.len() ==> #[trigger] init[i] == visits[i]);
        if forall|i: int| 0 <= i < init.len() ==> #[trigger] init[i] is None {
            if visits.last() is None {
                assert forall|i: int| 0 <= i < visits.len() implies #[trigger] visits[i] is None by {
                    if i < init.len() {
                        assert(init[i] is None);
                    }
                }
            } else {
                assert(visits[visits.len() - 1] is Some);
            }
        } else {
            let i = choose|i: int| 0 <= i < init.len() && !(#[trigger] init[i] is None);
            assert(!(visits[i] is None));
        }
    }
}

/// A walk of a depth yields a path if a visit within twenty million ends one.
proof fn lemma_found_at_depth(
    ptrs: Seq<Pointer>,
    q: Roots,
    target_a: usize,
    target_b: usize,
    depth: nat,
    ks: Seq<int>,
    upto: Set<Seq<int>>,
)
    requires
        depth > 0,
        ends_a_path(ptrs, q, target_a, target_b, depth as int, ks),
        upto.finite(),
        upto.len() <= 20_000_000,
        forall|js: Seq<int>| #[trigger]
            is_visit(ptrs, q, target_a, target_b, depth as int, js) && (js == ks
                || trails::comes_before(js, ks)) ==> upto.contains(js),
    ensures
        joint::path_of_depth(ptrs, q, target_a, target_b, depth) is Some,
{
    let visits = joint::walk2(ptrs, q, target_a, target_b, depth, Seq::empty(), Set::empty());
    let keys = lemma_walk_listed(ptrs, q, target_a, target_b, depth, Seq::empty(), Set::empty());
    assert(is_trail(ptrs, q.max_offset, target_a, target_b, Set::empty(), ks));
    let n = choose|n: int| 0 <= n < keys.len() && keys[n] == ks;
    lemma_in_order_once(keys);
    let early = keys.take(n + 1);
    assert forall|i: int| 0 <= i < early.len() implies upto.contains(#[trigger] early[i]) by {
        assert(early[i] == keys[i]);
        assert(fits(
            ptrs,
            q,
            target_a,
            target_b,
            depth,
            Seq::empty(),
            Set::empty(),
            keys[i],
            visits[i],
        ));
        if i < n {
            assert(trails::comes_before(keys[i], keys[n]));
        }
        assert(is_visit(ptrs, q, target_a, target_b, depth as int, keys[i]));
    }
    assert(early.no_duplicates());
    trails::lemma_fits_in(early, upto);
    let kept = reverse::first(visits, joint::JOINT_BUDGET as int);
    assert(kept[n] == visits[n]);
    assert(fits(
        ptrs,
        q,
        target_a,
        target_b,
        depth,
        Seq::empty(),
        Set::empty(),
        keys[n],
        visits[n],
    ));
    assert(visits[n] is Some);
    lemma_nothing_completed(kept);
    assert(!(kept[n] is None));
}

/// Once a walk of some depth yields a path, the joint scan returns one no longer.
proof fn lemma_found_within(
    ptrs: Seq<Pointer>,
    q: Roots,
    target_a: usize,
    target_b: usize,
    depth: nat,
    max_depth: nat,
)
    requires
        0 < depth <= max_depth,
        joint::path_of_depth(ptrs, q, target_a, target_b, depth) is Some,
    ensures
        joint::path_within(ptrs, q, target_a, target_b, max_depth) is Some,
        joint::path_within(ptrs, q, target_a, target_b, max_depth)->Some_0.len() <= depth + 1,
{
    assert(joint::path_within(ptrs, q, target_a, target_b, depth) is Some);
    joint::lemma_path_within_stays(ptrs, q, target_a, target_b, depth, max_depth);
    shared::joint_is_sound(
        ptrs,
        q,
        target_a,
        target_b,
        depth,
        joint::path_within(ptrs, q, target_a, target_b, depth)->Some_0,
    );
}

/// The joint scan returns a path wherever a walk comes to one within twenty million visits: `ks` ends
/// a path of `depth` dereferences, and `upto` has every visit that the walk of that depth comes to
/// up to it. What it returns is no longer than that.
pub proof fn paths_within_the_budget_are_found(
    ptrs: Seq<Pointer>,
    q: Roots,
    target_a: usize,
    target_b: usize,
    max_depth: nat,
    depth: nat,
    ks: Seq<int>,
    upto: Set<Seq<int>>,
)
    requires
        0 < depth <= max_depth,
        ends_a_path(ptrs, q, target_a, target_b, depth as int, ks),
        upto.finite(),
        upto.len() <= 20_000_000,
        forall|js: Seq<int>| #[trigger]
            is_visit(ptrs, q, target_a, target_b, depth as int, js) && (js == ks
                || trails::comes_before(js, ks)) ==> upto.contains(js),
    ensures
        joint::path_within(ptrs, q, target_a, target_b, max_depth) is Some,
        joint::path_within(ptrs, q, target_a, target_b, max_depth)->Some_0.len() <= depth + 1,
{
    lemma_found_at_depth(ptrs, q, target_a, target_b, depth, ks, upto);
    lemma_found_within(ptrs, q, target_a, target_b, depth, max_depth);
}

/// The path that the joint scan returns is that of the first visit that ends a path of its depth,
/// and the walk comes to that visit within twenty million.
pub proof fn the_path_returned_is_the_first(
    ptrs: Seq<Pointer>,
    q: Roots,
    target_a: usize,
    target_b: usize,
    max_depth: nat,
    path: Seq<usize>,
) -> (ks: Seq<int>)
    requires
        joint::path_within(ptrs, q, target_a, target_b, max_depth) == Some(path),
    ensures
        ends_a_path(ptrs, q, target_a, target_b, path.len() - 1, ks),
        path == trail_path(ptrs, q, target_a, ks),
        path.len() - 1 <= max_depth,
        forall|js: Seq<int>| #[trigger]
            ends_a_path(ptrs, q, target_a, target_b, path.len() - 1, js) ==> js == ks
                || trails::comes_before(ks, js),
        forall|upto: Set<Seq<int>>|
            upto.finite() && (forall|js: Seq<int>| #[trigger]
                upto.contains(js) ==> is_visit(ptrs, q, target_a, target_b, path.len() - 1, js)
                    && (js == ks || trails::comes_before(js, ks))) ==> #[trigger] upto.len()
                <= 20_000_000,
    decreases max_depth,
{
    if joint::path_within(ptrs, q, target_a, target_b, (max_depth - 1) as nat) is Some {
        the_path_returned_is_the_first(
            ptrs,
            q,
            target_a,
            target_b,
            (max_depth - 1) as nat,
            path,
        )
    } else {
        let depth = max_depth;
        shared::joint_is_sound(ptrs, q, target_a, target_b, depth, path);
        let visits = joint::walk2(ptrs, q, target_a, target_b, depth, Seq::empty(), Set::empty());
        let keys = lemma_walk_listed(
            ptrs,
            q,
            target_a,
            target_b,
            depth,
            Seq::empty(),
            Set::empty(),
        );
        let kept = reverse::first(visits, joint::JOINT_BUDGET as int);
        let n = lemma_first_completed(kept);
        let ks = keys[n];
        assert(visits[n] == kept[n]);
        assert(fits(
            ptrs,
            q,
            target_a,
            target_b,
            depth,
            Seq::empty(),
            Set::empty(),
            ks,
            visits[n],
        ));
        assert(trail_path(ptrs, q, target_a, ks) + Seq::empty() =~= trail_path(
            ptrs,
            q,
            target_a,
            ks,
        ));
        lemma_odd(ptrs, q.max_offset, target_a, target_b, Set::empty(), ks);
        lemma_path_length(ptrs, q, target_a, ks);
        assert(path.len() - 1 == depth);
        assert forall|js: Seq<int>| #[trigger] ends_a_path(
            ptrs,
            q,
            target_a,
            target_b,
            path.len() - 1,
            js,
        ) implies js == ks || trails::comes_before(ks, js) by {
            assert(is_trail(ptrs, q.max_offset, target_a, target_b, Set::empty(), js));
            let i = choose|i: int| 0 <= i < keys.len() && keys[i] == js;
            assert(fits(
                ptrs,
                q,
                target_a,
                target_b,
                depth,
                Seq::empty(),
                Set::empty(),
                keys[i],
                visits[i],
            ));
            if i < n {
                assert(kept[i] == visits[i]);
                assert(kept[i] is None);
            } else if i > n {
                assert(trails::comes_before(keys[n], keys[i]));
            }
        }
        assert forall|upto: Set<Seq<int>>|
            upto.finite() && (forall|js: Seq<int>| #[trigger]
                upto.contains(js) ==> is_visit(ptrs, q, target_a, target_b, path.len() - 1, js)
                    && (js == ks || trails::comes_before(js, ks))) implies #[trigger] upto.len()
            <= 20_000_000 by {
            assert forall|js: Seq<int>| #[trigger] upto.contains(js) implies keys.take(
                n + 1,
            ).contains(js) by {
                assert(is_visit(ptrs, q, target_a, target_b, path.len() - 1, js));
                assert(is_trail(ptrs, q.max_offset, target_a, target_b, Set::empty(), js));
                lemma_up_to(keys, n, js);
            }
            trails::lemma_fits_around(upto, keys.take(n + 1));
        }
        ks
    }
}

/// A path along a trail has one element more than the trail has dereferences.
proof fn lemma_path_length(ptrs: Seq<Pointer>, q: Roots, ca: usize, ks: Seq<int>)
    requires
        ks.len() % 2 == 1,
    ensures
        trail_path(ptrs, q, ca, ks).len() == steps(ks) + 1,
    decreases ks.len(),
{
    if ks.len() > 1 {
        lemma_path_length(ptrs, q, ptrs[ks[0]].1, ks.subrange(2, ks.len() as int));
    }
}

/// A trail of two decks ends with a pointer of the first.
proof fn lemma_odd(
    ptrs: Seq<Pointer>,
    max_offset: usize,
    ca: usize,
    cb: usize,
    on_path: Set<(usize, usize)>,
    ks: Seq<int>,
)
    requires
        is_trail(ptrs, max_offset, ca, cb, on_path, ks),
    ensures
        ks.len() % 2 == 1,
    decreases ks.len(),
{
    if ks.len() > 1 {
        lemma_odd(
            ptrs,
            max_offset,
            ptrs[ks[0]].1,
            ptrs[ks[1]].1,
            on_path.insert((ca, cb)),
            ks.subrange(2, ks.len() as int),
        );
    }
}

/// The joint scan returns no path of more dereferences while a walk of fewer comes to one within
/// twenty million visits.
pub proof fn no_shorter_path_was_within_the_budget(
    ptrs: Seq<Pointer>,
    q: Roots,
    target_a: usize,
    target_b: usize,
    max_depth: nat,
    depth: nat,
    ks: Seq<int>,
    upto: Set<Seq<int>>,
)
    requires
        0 < depth <= max_depth,
        ends_a_path(ptrs, q, target_a, target_b, depth as int, ks),
        upto.finite(),
        forall|js: Seq<int>| #[trigger]
            is_visit(ptrs, q, target_a, target_b, depth as int, js) && (js == ks
                || trails::comes_before(js, ks)) ==> upto.contains(js),
        joint::path_within(ptrs, q, target_a, target_b, max_depth) is None
            || joint::path_within(ptrs, q, target_a, target_b, max_depth)->Some_0.len() > depth + 1,
    ensures
        upto.len() > 20_000_000,
{
    if upto.len() <= 20_000_000 {
        paths_within_the_budget_are_found(
            ptrs,
            q,
            target_a,
            target_b,
            max_depth,
            depth,
            ks,
            upto,
        );
    }
}

/// Where the lock-step trails of the map up to a depth number no more than twenty million, the joint
/// scan to that depth returns a path whenever one is shared, and none that is shared is shorter.
pub proof fn shared_paths_are_found(
    ptrs: Seq<Pointer>,
    q: Roots,
    target_a: usize,
    target_b: usize,
    max_depth: nat,
    path: Seq<usize>,
    la: Seq<usize>,
    lb: Seq<usize>,
    visits: Set<Seq<int>>,
)
    requires
        shared::is_shared(ptrs, q, path, la, lb, target_a, target_b),
        path.len() <= max_depth + 1,
        visits.finite(),
        forall|js: Seq<int>| #[trigger]
            is_visit(ptrs, q, target_a, target_b, max_depth as int, js) ==> visits.contains(js),
        visits.len() <= 20_000_000,
    ensures
        joint::path_within(ptrs, q, target_a, target_b, max_depth) is Some,
        joint::path_within(ptrs, q, target_a, target_b, max_depth)->Some_0.len() <= path.len(),
{
    assert forall|depth: nat| 1 <= depth <= max_depth implies (#[trigger] joint::walk2(
        ptrs,
        q,
        target_a,
        target_b,
        depth,
        Seq::empty(),
        Set::empty(),
    )).len() <= joint::JOINT_BUDGET by {
        let walk = joint::walk2(ptrs, q, target_a, target_b, depth, Seq::empty(), Set::empty());
        let keys = lemma_walk_listed(
            ptrs,
            q,
            target_a,
            target_b,
            depth,
            Seq::empty(),
            Set::empty(),
        );
        lemma_in_order_once(keys);
        assert forall|i: int| 0 <= i < keys.len() implies visits.contains(#[trigger] keys[i]) by {
            assert(fits(
                ptrs,
                q,
                target_a,
                target_b,
                depth,
                Seq::empty(),
                Set::empty(),
                keys[i],
                walk[i],
            ));
            assert(is_visit(ptrs, q, target_a, target_b, max_depth as int, keys[i]));
        }
        trails::lemma_fits_in(keys, visits);
    }
    shared::joint_is_shortest(ptrs, q, target_a, target_b, max_depth, path, la, lb);
}

} // verus!
