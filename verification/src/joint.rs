//! The joint reverse scan: one offset path that two decks share.
use crate::pointers;
use crate::pointers::{Pointer, PointerMap};
use crate::reverse;
use crate::reverse::reversed;
use vstd::prelude::*;
use vstd::slice::slice_to_vec;

verus! {

/// Bound on the work per depth of a joint scan (pairs that share no path).
pub const JOINT_BUDGET: u64 = 20_000_000;

/// The two roots of a joint scan, the size of a root, and the largest offset to consider.
#[derive(Clone, Copy, Debug)]
pub struct Roots {
    pub root_a: usize,
    pub root_b: usize,
    pub window: usize,
    pub max_offset: usize,
}

impl Roots {
    /// `loc` lies in the first root.
    pub open spec fn in_a(self, loc: usize) -> bool {
        self.root_a <= loc && loc < self.root_a + self.window
    }
}

/// The locations that hold exactly `value`, in the order of the map.
pub open spec fn holders(ptrs: Seq<Pointer>, value: int) -> Seq<usize> {
    ptrs.filter(pointers::valued(value, value)).map_values(|e: Pointer| e.1)
}

/// The candidates that a walk back from `ca`, in lock-step with `cb`, visits, in order, with the
/// path that each visit completes. The walk goes `left` dereferences deep; `tail` are the offsets
/// from here to the two targets, and `on_path` the pairs of addresses in between: the walk comes by
/// no pair twice, though it may by an address of one deck while the other moves on.
pub open spec fn walk2(
    ptrs: Seq<Pointer>,
    q: Roots,
    ca: usize,
    cb: usize,
    left: nat,
    tail: Seq<usize>,
    on_path: Set<(usize, usize)>,
) -> Seq<Option<Seq<usize>>>
    decreases left, 2nat, 0nat,
{
    if left == 0 || on_path.contains((ca, cb)) {
        Seq::empty()
    } else {
        walk2_each(
            ptrs,
            q,
            ca,
            cb,
            ptrs.filter(pointers::valued(ca - q.max_offset, ca as int)),
            left,
            tail,
            on_path.insert((ca, cb)),
        )
    }
}

/// The visits of a joint walk that tries the pointers `cands` for `ca`.
pub open spec fn walk2_each(
    ptrs: Seq<Pointer>,
    q: Roots,
    ca: usize,
    cb: usize,
    cands: Seq<Pointer>,
    left: nat,
    tail: Seq<usize>,
    on_path: Set<(usize, usize)>,
) -> Seq<Option<Seq<usize>>>
    decreases left, 1nat, cands.len(),
{
    if cands.len() == 0 {
        Seq::empty()
    } else {
        walk2_each(ptrs, q, ca, cb, cands.drop_last(), left, tail, on_path) + walk2_one(
            ptrs,
            q,
            ca,
            cb,
            cands.last(),
            left,
            tail,
            on_path,
        )
    }
}

/// The visits of a joint walk that tries one pointer for `ca`. The second deck has to hold a
/// pointer at the same offset before `cb`. At the last step both have to lie in their root, at the
/// same distance from its start.
pub open spec fn walk2_one(
    ptrs: Seq<Pointer>,
    q: Roots,
    ca: usize,
    cb: usize,
    e: Pointer,
    left: nat,
    tail: Seq<usize>,
    on_path: Set<(usize, usize)>,
) -> Seq<Option<Seq<usize>>>
    decreases left, 0nat, 0nat,
{
    let off = ca - e.0;
    let locs_b = holders(ptrs, cb - off);
    let path = seq![off as usize] + tail;
    if locs_b.len() == 0 {
        seq![None]
    } else if q.in_a(e.1) && left == 1 {
        let rel = (e.1 - q.root_a) as usize;
        if exists|k: int| 0 <= k < locs_b.len() && #[trigger] locs_b[k] == q.root_b + rel {
            seq![Some(seq![rel] + path)]
        } else {
            seq![None]
        }
    } else if left == 0 {
        seq![None]
    } else {
        seq![None] + walk2_over(ptrs, q, e.1, locs_b, (left - 1) as nat, path, on_path)
    }
}

/// The visits of the joint walks from `ca` with each location of `locs_b` in turn.
pub open spec fn walk2_over(
    ptrs: Seq<Pointer>,
    q: Roots,
    ca: usize,
    locs_b: Seq<usize>,
    left: nat,
    tail: Seq<usize>,
    on_path: Set<(usize, usize)>,
) -> Seq<Option<Seq<usize>>>
    decreases left, 3nat, locs_b.len(),
{
    if locs_b.len() == 0 {
        Seq::empty()
    } else {
        walk2_over(ptrs, q, ca, locs_b.drop_last(), left, tail, on_path) + walk2(
            ptrs,
            q,
            ca,
            locs_b.last(),
            left,
            tail,
            on_path,
        )
    }
}

/// The paths that visits complete.
pub open spec fn completed2(visits: Seq<Option<Seq<usize>>>) -> Seq<Seq<usize>> {
    visits.filter_map(|v: Option<Seq<usize>>| v)
}

/// The first path of exactly `depth` dereferences that the budget allows to find.
pub open spec fn path_of_depth(
    ptrs: Seq<Pointer>,
    q: Roots,
    target_a: usize,
    target_b: usize,
    depth: nat,
) -> Option<Seq<usize>> {
    let hits = completed2(
        reverse::first(
            walk2(ptrs, q, target_a, target_b, depth, Seq::empty(), Set::empty()),
            JOINT_BUDGET as int,
        ),
    );
    if hits.len() == 0 {
        None
    } else {
        Some(hits[0])
    }
}

/// The first path found when depths are tried from one up to `depth`.
pub open spec fn path_within(
    ptrs: Seq<Pointer>,
    q: Roots,
    target_a: usize,
    target_b: usize,
    depth: nat,
) -> Option<Seq<usize>>
    decreases depth,
{
    if depth == 0 {
        None
    } else if let Some(p) = path_within(ptrs, q, target_a, target_b, (depth - 1) as nat) {
        Some(p)
    } else {
        path_of_depth(ptrs, q, target_a, target_b, depth)
    }
}

/// A path as plain data.
pub open spec fn as_offsets(o: Option<Vec<usize>>) -> Option<Seq<usize>> {
    match o {
        Some(v) => Some(v@),
        None => None,
    }
}

/// How far a joint walk has come: the path found, if any, and the visits left.
struct Search {
    out: Option<Seq<usize>>,
    budget: int,
}

spec fn search_visit(s: Search, visit: Option<Seq<usize>>) -> Search {
    if s.out is Some || s.budget == 0 {
        s
    } else {
        Search { out: visit, budget: s.budget - 1 }
    }
}

spec fn search(s: Search, visits: Seq<Option<Seq<usize>>>) -> Search
    decreases visits.len(),
{
    if visits.len() == 0 {
        s
    } else {
        search_visit(search(s, visits.drop_last()), visits.last())
    }
}

proof fn lemma_search_add(s: Search, a: Seq<Option<Seq<usize>>>, b: Seq<Option<Seq<usize>>>)
    ensures
        search(s, a + b) == search(search(s, a), b),
    decreases b.len(),
{
    if b.len() == 0 {
        assert(a + b =~= a);
    } else {
        assert((a + b).drop_last() =~= a + b.drop_last());
        lemma_search_add(s, a, b.drop_last());
    }
}

proof fn lemma_search_over(s: Search, visits: Seq<Option<Seq<usize>>>)
    requires
        s.out is Some || s.budget == 0,
    ensures
        search(s, visits) == s,
    decreases visits.len(),
{
    if visits.len() > 0 {
        lemma_search_over(s, visits.drop_last());
    }
}

proof fn lemma_search_one(s: Search, visit: Option<Seq<usize>>)
    ensures
        search(s, seq![visit]) == search_visit(s, visit),
{
    assert(seq![visit].drop_last() =~= Seq::empty());
    assert(search(s, Seq::empty()) == s);
}

/// A search ends with the first path among the visits that the budget allows.
proof fn lemma_search_result(budget: int, visits: Seq<Option<Seq<usize>>>)
    requires
        budget >= 0,
    ensures
        ({
            let hits = completed2(reverse::first(visits, budget));
            let end = search(Search { out: None, budget }, visits);
            &&& end.out == (if hits.len() == 0 {
                None
            } else {
                Some(hits[0])
            })
            &&& end.out is None ==> end.budget == (if visits.len() <= budget {
                budget - visits.len()
            } else {
                0
            })
        }),
    decreases visits.len(),
{
    if visits.len() == 0 {
        assert(reverse::first(visits, budget) =~= visits);
        assert(completed2(visits) =~= Seq::empty());
    } else {
        let init = visits.drop_last();
        lemma_search_result(budget, init);
        if visits.len() <= budget {
            assert(reverse::first(visits, budget) =~= visits);
            assert(reverse::first(init, budget) =~= init);
        } else {
            assert(reverse::first(visits, budget) =~= reverse::first(init, budget));
        }
    }
}

/// The visits of a joint walk after its first `i` candidates.
proof fn lemma_walk2_each_split(
    ptrs: Seq<Pointer>,
    q: Roots,
    ca: usize,
    cb: usize,
    cands: Seq<Pointer>,
    i: int,
    left: nat,
    tail: Seq<usize>,
    on_path: Set<(usize, usize)>,
) -> (after: Seq<Option<Seq<usize>>>)
    requires
        0 <= i <= cands.len(),
    ensures
        walk2_each(ptrs, q, ca, cb, cands, left, tail, on_path) == walk2_each(
            ptrs,
            q,
            ca,
            cb,
            cands.take(i),
            left,
            tail,
            on_path,
        ) + after,
    decreases cands.len(),
{
    let part = walk2_each(ptrs, q, ca, cb, cands.take(i), left, tail, on_path);
    let all = walk2_each(ptrs, q, ca, cb, cands, left, tail, on_path);
    if i == cands.len() {
        assert(cands.take(i) =~= cands);
        let after: Seq<Option<Seq<usize>>> = Seq::empty();
        assert(all =~= part + after);
        after
    } else {
        let init = lemma_walk2_each_split(
            ptrs,
            q,
            ca,
            cb,
            cands.drop_last(),
            i,
            left,
            tail,
            on_path,
        );
        assert(cands.drop_last().take(i) =~= cands.take(i));
        let after = init + walk2_one(ptrs, q, ca, cb, cands.last(), left, tail, on_path);
        assert(all =~= part + after);
        after
    }
}

/// The visits of joint walks after those with the first `i` locations.
proof fn lemma_walk2_over_split(
    ptrs: Seq<Pointer>,
    q: Roots,
    ca: usize,
    locs_b: Seq<usize>,
    i: int,
    left: nat,
    tail: Seq<usize>,
    on_path: Set<(usize, usize)>,
) -> (after: Seq<Option<Seq<usize>>>)
    requires
        0 <= i <= locs_b.len(),
    ensures
        walk2_over(ptrs, q, ca, locs_b, left, tail, on_path) == walk2_over(
            ptrs,
            q,
            ca,
            locs_b.take(i),
            left,
            tail,
            on_path,
        ) + after,
    decreases locs_b.len(),
{
    let part = walk2_over(ptrs, q, ca, locs_b.take(i), left, tail, on_path);
    let all = walk2_over(ptrs, q, ca, locs_b, left, tail, on_path);
    if i == locs_b.len() {
        assert(locs_b.take(i) =~= locs_b);
        let after: Seq<Option<Seq<usize>>> = Seq::empty();
        assert(all =~= part + after);
        after
    } else {
        let init = lemma_walk2_over_split(ptrs, q, ca, locs_b.drop_last(), i, left, tail, on_path);
        assert(locs_b.drop_last().take(i) =~= locs_b.take(i));
        let after = init + walk2(ptrs, q, ca, locs_b.last(), left, tail, on_path);
        assert(all =~= part + after);
        after
    }
}

impl PointerMap {
    /// The locations that hold exactly `value`.
    fn holders_of(&self, value: u64) -> (locs: Vec<usize>)
        ensures
            locs@ == holders(self@, value as int),
    {
        let found = self.locs_with_value(value);
        let mut locs: Vec<usize> = Vec::new();
        let mut i: usize = 0;
        while i < found.len()
            invariant
                i <= found@.len(),
                locs@ == found@.map_values(|e: Pointer| e.1).take(i as int),
            decreases found.len() - i,
        {
            locs.push(found[i].1);
            i = i + 1;
            assert(locs@ =~= found@.map_values(|e: Pointer| e.1).take(i as int));
        }
        assert(locs@ =~= found@.map_values(|e: Pointer| e.1));
        locs
    }

    /// Walks both decks back in lock-step, from `ca` and `cb`, until a path of `limit`
    /// dereferences in all is found; `depth` of them lie behind.
    #[verifier::rlimit(80)]
    fn joint2_rec(
        &self,
        ca: usize,
        cb: usize,
        q: &Roots,
        limit: usize,
        depth: usize,
        acc: &mut Vec<usize>,
        on_path: &mut Vec<(usize, usize)>,
        out: &mut Option<Vec<usize>>,
        budget: &mut u64,
    )
        ensures
            final(acc)@ == old(acc)@,
            final(on_path)@ == old(on_path)@,
            (Search { out: as_offsets(*final(out)), budget: *final(budget) as int }) == search(
                (Search { out: as_offsets(*old(out)), budget: *old(budget) as int }),
                walk2(
                    self@,
                    *q,
                    ca,
                    cb,
                    reverse::levels_left(limit, depth),
                    old(acc)@.reverse(),
                    old(on_path)@.to_set(),
                ),
            ),
        decreases limit - depth,
    {
        let ghost left = reverse::levels_left(limit, depth);
        let ghost tail = acc@.reverse();
        let ghost s0 = Search { out: as_offsets(*out), budget: *budget as int };
        let ghost visits = walk2(self@, *q, ca, cb, left, tail, on_path@.to_set());
        if out.is_some() || *budget == 0 {
            proof {
                lemma_search_over(s0, visits);
            }
            return ;
        }
        if depth >= limit {
            return ;
        }
        let ghost outer = on_path@;
        if holds_pair(on_path, ca, cb) {
            return ;
        }
        on_path.push((ca, cb));
        let ghost inner = on_path@.to_set();
        proof {
            outer.lemma_push_to_set_commute((ca, cb));
        }
        let lo = ca.saturating_sub(q.max_offset) as u64;
        let hi = ca as u64;
        let cands: Vec<Pointer> = slice_to_vec(self.ptrs_in_range(lo, hi));
        proof {
            reverse::lemma_candidates(self@, ca, q.max_offset);
        }
        let ghost all = walk2_each(self@, *q, ca, cb, cands@, left, tail, inner);
        let mut i: usize = 0;
        assert(cands@.take(0) =~= Seq::empty());
        while i < cands.len() && out.is_none() && *budget != 0
            invariant
                depth < limit,
                left == limit - depth,
                i <= cands.len(),
                acc@.reverse() == tail,
                acc@ == old(acc)@,
                on_path@ == outer.push((ca, cb)),
                inner == on_path@.to_set(),
                forall|k: int| 0 <= k < cands@.len() ==> (#[trigger] cands@[k]).0 <= ca,
                (Search { out: as_offsets(*out), budget: *budget as int }) == search(
                    s0,
                    walk2_each(self@, *q, ca, cb, cands@.take(i as int), left, tail, inner),
                ),
            decreases cands.len() - i,
        {
            let (value_a, loc_a) = cands[i];
            let ghost e = cands@[i as int];
            let ghost step = walk2_one(self@, *q, ca, cb, e, left, tail, inner);
            let ghost s1 = Search { out: as_offsets(*out), budget: *budget as int };
            proof {
                assert(cands@.take(i + 1).drop_last() =~= cands@.take(i as int));
                lemma_search_add(
                    s0,
                    walk2_each(self@, *q, ca, cb, cands@.take(i as int), left, tail, inner),
                    step,
                );
            }
            i = i + 1;
            *budget = *budget - 1;
            let off = ca - value_a as usize;
            let ghost way = seq![off] + tail;
            // deck B must have a pointer with the same offset to stay in lock-step.
            let locs_b: Vec<usize> = if off <= cb {
                self.holders_of((cb - off) as u64)
            } else {
                proof {
                    lemma_no_holders(self@, cb - off);
                }
                Vec::new()
            };
            assert(locs_b@ =~= holders(self@, cb - off));
            if locs_b.len() == 0 {
                proof {
                    lemma_search_one(s1, None);
                }
            } else {
                let in_a = loc_a >= q.root_a && loc_a - q.root_a < q.window;
                if in_a && depth + 1 == limit {
                    // Terminal: both decks land in their root at the SAME relative
                    // offset via the same step offset.
                    let rel = loc_a - q.root_a;
                    if holds_at(&locs_b, q.root_b, rel) {
                        let mut line: Vec<usize> = acc.clone();
                        assert(line@ =~= acc@);
                        line.push(off);
                        line.push(rel);
                        let path = reversed(&line);
                        proof {
                            assert(path@ =~= seq![rel] + way);
                            lemma_search_one(s1, Some(path@));
                        }
                        *out = Some(path);
                    } else {
                        proof {
                            lemma_search_one(s1, None);
                        }
                    }
                } else {
                    // Recurse in lock-step: pick a B location as the next cb.
                    acc.push(off);
                    assert(acc@.reverse() =~= way);
                    let ghost s2 = Search { out: None, budget: *budget as int };
                    let ghost over = walk2_over(
                        self@,
                        *q,
                        loc_a,
                        locs_b@,
                        (left - 1) as nat,
                        way,
                        inner,
                    );
                    proof {
                        lemma_search_add(s1, seq![None], over);
                        lemma_search_one(s1, None);
                        assert(locs_b@.take(0) =~= Seq::empty());
                    }
                    let mut j: usize = 0;
                    while j < locs_b.len() && out.is_none()
                        invariant
                            depth < limit,
                            left == limit - depth,
                            j <= locs_b.len(),
                            acc@.reverse() == way,
                            acc@ == old(acc)@.push(off),
                            on_path@ == outer.push((ca, cb)),
                            inner == on_path@.to_set(),
                            (Search { out: as_offsets(*out), budget: *budget as int }) == search(
                                s2,
                                walk2_over(
                                    self@,
                                    *q,
                                    loc_a,
                                    locs_b@.take(j as int),
                                    (left - 1) as nat,
                                    way,
                                    inner,
                                ),
                            ),
                        decreases locs_b.len() - j,
                    {
                        let lb = locs_b[j];
                        proof {
                            assert(locs_b@.take(j + 1).drop_last() =~= locs_b@.take(j as int));
                            lemma_search_add(
                                s2,
                                walk2_over(
                                    self@,
                                    *q,
                                    loc_a,
                                    locs_b@.take(j as int),
                                    (left - 1) as nat,
                                    way,
                                    inner,
                                ),
                                walk2(self@, *q, loc_a, lb, (left - 1) as nat, way, inner),
                            );
                        }
                        j = j + 1;
                        self.joint2_rec(
                            loc_a,
                            lb,
                            q,
                            limit,
                            depth + 1,
                            acc,
                            on_path,
                            out,
                            budget,
                        );
                    }
                    proof {
                        let after = lemma_walk2_over_split(
                            self@,
                            *q,
                            loc_a,
                            locs_b@,
                            j as int,
                            (left - 1) as nat,
                            way,
                            inner,
                        );
                        let part = walk2_over(
                            self@,
                            *q,
                            loc_a,
                            locs_b@.take(j as int),
                            (left - 1) as nat,
                            way,
                            inner,
                        );
                        lemma_search_add(s2, part, after);
                        if out.is_some() {
                            lemma_search_over(search(s2, part), after);
                        } else {
                            assert(locs_b@.take(j as int) =~= locs_b@);
                        }
                    }
                    let _ = acc.pop();
                    assert(acc@ =~= old(acc)@);
                }
            }
        }
        proof {
            let after = lemma_walk2_each_split(
                self@,
                *q,
                ca,
                cb,
                cands@,
                i as int,
                left,
                tail,
                inner,
            );
            let part = walk2_each(self@, *q, ca, cb, cands@.take(i as int), left, tail, inner);
            lemma_search_add(s0, part, after);
            if i < cands.len() {
                lemma_search_over(search(s0, part), after);
            } else {
                assert(cands@.take(i as int) =~= cands@);
            }
        }
        let _ = on_path.pop();
        assert(on_path@ =~= outer);
    }

    /// JOINT reverse scan across two (root, target) pairs: finds the shortest offset path that,
    /// applied from each root, reaches that pair's target, using the same offset at every step.
    /// Root-relative: `[off_in_root, .., final]`.
    pub fn joint2_path(
        &self,
        q: Roots,
        target_a: usize,
        target_b: usize,
        max_depth: usize,
    ) -> (path: Option<Vec<usize>>)
        ensures
            as_offsets(path) == path_within(self@, q, target_a, target_b, max_depth as nat),
    {
        let mut limit: usize = 0;
        while limit < max_depth
            invariant
                limit <= max_depth,
                path_within(self@, q, target_a, target_b, limit as nat) is None,
            decreases max_depth - limit,
        {
            limit = limit + 1;
            let mut acc: Vec<usize> = Vec::new();
            let mut on_path: Vec<(usize, usize)> = Vec::new();
            let mut out: Option<Vec<usize>> = None;
            let mut budget: u64 = JOINT_BUDGET;
            assert(acc@.reverse() =~= Seq::empty());
            assert(on_path@.to_set() =~= Set::empty());
            self.joint2_rec(
                target_a,
                target_b,
                &q,
                limit,
                0,
                &mut acc,
                &mut on_path,
                &mut out,
                &mut budget,
            );
            proof {
                lemma_search_result(
                    JOINT_BUDGET as int,
                    walk2(
                        self@,
                        q,
                        target_a,
                        target_b,
                        limit as nat,
                        Seq::empty(),
                        Set::empty(),
                    ),
                );
            }
            if out.is_some() {
                proof {
                    lemma_path_within_stays(self@, q, target_a, target_b, limit as nat, max_depth as nat);
                }
                return out;
            }
        }
        None
    }
}

/// Once a path is found, deeper limits change nothing.
pub(crate) proof fn lemma_path_within_stays(
    ptrs: Seq<Pointer>,
    q: Roots,
    target_a: usize,
    target_b: usize,
    a: nat,
    b: nat,
)
    requires
        a <= b,
        path_within(ptrs, q, target_a, target_b, a) is Some,
    ensures
        path_within(ptrs, q, target_a, target_b, b) == path_within(ptrs, q, target_a, target_b, a),
    decreases b,
{
    if a < b {
        lemma_path_within_stays(ptrs, q, target_a, target_b, a, (b - 1) as nat);
    }
}

/// No location holds a negative value.
proof fn lemma_no_holders(ptrs: Seq<Pointer>, value: int)
    requires
        value < 0,
    ensures
        holders(ptrs, value) == Seq::<usize>::empty(),
{
    ptrs.lemma_all_neg_filter_empty(pointers::valued(value, value));
    assert(holders(ptrs, value) =~= Seq::<usize>::empty());
}

/// Whether the pair of `ca` and `cb` is on the way.
fn holds_pair(on_path: &Vec<(usize, usize)>, ca: usize, cb: usize) -> (yes: bool)
    ensures
        yes == on_path@.to_set().contains((ca, cb)),
{
    let mut i: usize = 0;
    while i < on_path.len()
        invariant
            i <= on_path.len(),
            forall|k: int| 0 <= k < i ==> #[trigger] on_path@[k] != (ca, cb),
        decreases on_path.len() - i,
    {
        let (a, b) = on_path[i];
        if a == ca && b == cb {
            assert(on_path@[i as int] == (ca, cb));
            return true;
        }
        i = i + 1;
    }
    false
}

/// Whether one of `locs` lies `rel` past `root`.
fn holds_at(locs: &Vec<usize>, root: usize, rel: usize) -> (yes: bool)
    ensures
        yes == exists|k: int| 0 <= k < locs@.len() && #[trigger] locs@[k] == root + rel,
{
    let mut i: usize = 0;
    while i < locs.len()
        invariant
            i <= locs.len(),
            forall|k: int| 0 <= k < i ==> #[trigger] locs@[k] != root + rel,
        decreases locs.len() - i,
    {
        let lb = locs[i];
        if lb >= root && lb - root == rel {
            assert(locs@[i as int] == root + rel);
            return true;
        }
        i = i + 1;
    }
    false
}

} // verus!
