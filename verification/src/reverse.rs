//! The reverse pointer scan: from an address back to the static data of the main image.
use crate::path;
use crate::path::{PointerPath, Route, ScanOpts};
use crate::pointers;
use crate::pointers::{Pointer, PointerMap};
use crate::region::Image;
use crate::sort;
use crate::sort::stable_sort;
use std::collections::HashSet;
use vstd::prelude::*;
use vstd::slice::slice_to_vec;

verus! {

/// What a scan walks over: the pointers, the main image, and the largest offset to consider.
pub struct Graph {
    pub ptrs: Seq<Pointer>,
    pub image: Image,
    pub max_offset: usize,
}

impl Graph {
    /// The pointers from whose value `target` is at most the largest offset away, by value.
    pub open spec fn candidates(self, target: usize) -> Seq<Pointer> {
        self.ptrs.filter(pointers::valued(target - self.max_offset, target as int))
    }
}

/// The candidates that a walk back from `target` visits, in order, with the route that each visit
/// completes. The walk goes `left` dereferences deep; `tail` are the offsets from `target` on, and
/// `on_path` the addresses between `target` and the end. A candidate in the image ends a route, and
/// the route counts if it has the full depth; from any other the walk goes on.
pub open spec fn walk(
    g: Graph,
    target: usize,
    left: nat,
    tail: Seq<usize>,
    on_path: Set<usize>,
) -> Seq<Option<Route>>
    decreases left, 1nat, 0nat,
{
    if left == 0 || on_path.contains(target) {
        Seq::empty()
    } else {
        walk_each(g, target, g.candidates(target), left, tail, on_path.insert(target))
    }
}

/// The visits of a walk that tries the pointers `cands` for `target`.
pub open spec fn walk_each(
    g: Graph,
    target: usize,
    cands: Seq<Pointer>,
    left: nat,
    tail: Seq<usize>,
    on_path: Set<usize>,
) -> Seq<Option<Route>>
    decreases left, 0nat, cands.len(),
{
    if cands.len() == 0 {
        Seq::empty()
    } else {
        walk_each(g, target, cands.drop_last(), left, tail, on_path) + walk_one(
            g,
            target,
            cands.last(),
            left,
            tail,
            on_path,
        )
    }
}

/// The visits of a walk that tries one pointer for `target`.
pub open spec fn walk_one(
    g: Graph,
    target: usize,
    e: Pointer,
    left: nat,
    tail: Seq<usize>,
    on_path: Set<usize>,
) -> Seq<Option<Route>>
    decreases left, 0nat, 0nat,
{
    let rest = seq![(target - e.0) as usize] + tail;
    if g.image.holds(e.1) {
        seq![
            if left == 1 {
                Some(((e.1 - g.image.base) as usize, rest))
            } else {
                None
            },
        ]
    } else if left == 0 {
        Seq::empty()
    } else {
        seq![None] + walk(g, e.1, (left - 1) as nat, rest, on_path)
    }
}

/// The routes that visits complete.
pub open spec fn completed(visits: Seq<Option<Route>>) -> Seq<Route> {
    visits.filter_map(|v: Option<Route>| v)
}

/// The first `n` elements of `s`, or all there are.
pub open spec fn first<T>(s: Seq<T>, n: int) -> Seq<T> {
    if n <= 0 {
        Seq::empty()
    } else if s.len() <= n {
        s
    } else {
        s.take(n)
    }
}

/// The visits of the walks back from `target` of every depth up to `depth`, one depth after the
/// other.
pub open spec fn visits_to(g: Graph, target: usize, depth: nat) -> Seq<Option<Route>>
    decreases depth,
{
    if depth == 0 {
        Seq::empty()
    } else {
        visits_to(g, target, (depth - 1) as nat) + walk(
            g,
            target,
            depth,
            Seq::empty(),
            Set::empty(),
        )
    }
}

/// The routes from the image to `target` of the depths up to `depth`, from the visits within the
/// node budget. One count runs through all depths, and the visit that reaches the budget counts no
/// more.
pub open spec fn routes_to(g: Graph, target: usize, node_budget: usize, depth: nat) -> Seq<Route> {
    completed(first(visits_to(g, target, depth), node_budget - 1))
}

/// The routes that a scan with `opts` collects, before they are sorted.
pub open spec fn collected(g: Graph, target: usize, opts: ScanOpts) -> Seq<Route> {
    first(
        routes_to(g, target, opts.node_budget, opts.max_depth as nat),
        opts.max_results as int,
    )
}

/// A scan with `opts` yields the routes `found`: what it collects, sorted, without repeats.
pub open spec fn scan_yields(g: Graph, target: usize, opts: ScanOpts, found: Seq<Route>) -> bool {
    exists|sorted: Seq<Route>| #[trigger]
        sort::stable_sort_of(collected(g, target, opts), sorted, path::route_rank()) && found
            == sort::without_repeats(sorted)
}

/// The dereferences that a walk may still go, of `limit` in all, with `depth` behind it.
pub open spec fn levels_left(limit: usize, depth: usize) -> nat {
    if depth >= limit {
        0
    } else {
        (limit - depth) as nat
    }
}

/// How far a walk has come: the routes completed and the candidates visited.
struct Tally {
    found: Seq<Route>,
    nodes: int,
}

/// The walk visits no more.
spec fn stopped(opts: ScanOpts, t: Tally) -> bool {
    t.found.len() >= opts.max_results || t.nodes >= opts.node_budget
}

/// The tally with one more candidate counted.
spec fn counted(t: Tally) -> Tally {
    Tally {
        found: t.found,
        nodes: if t.nodes < usize::MAX {
            t.nodes + 1
        } else {
            t.nodes
        },
    }
}

/// What a walk back from `target` makes of a tally. Every candidate that a loop comes to is
/// counted, also the one at which it finds the walk stopped and ends, and so on each level on the
/// way out.
spec fn run(
    opts: ScanOpts,
    g: Graph,
    target: usize,
    left: nat,
    tail: Seq<usize>,
    on_path: Set<usize>,
    t: Tally,
) -> Tally
    decreases left, 2nat, 0nat,
{
    if stopped(opts, t) || left == 0 || on_path.contains(target) {
        t
    } else {
        run_each(
            opts,
            g,
            target,
            g.candidates(target),
            left,
            tail,
            on_path.insert(target),
            t,
        ).0
    }
}

/// What the loop over `cands` makes of a tally, and whether it came to its end.
spec fn run_each(
    opts: ScanOpts,
    g: Graph,
    target: usize,
    cands: Seq<Pointer>,
    left: nat,
    tail: Seq<usize>,
    on_path: Set<usize>,
    t: Tally,
) -> (Tally, bool)
    decreases left, 1nat, cands.len(),
{
    if cands.len() == 0 {
        (t, true)
    } else {
        let (u, going) = run_each(opts, g, target, cands.drop_last(), left, tail, on_path, t);
        if going {
            run_one(opts, g, target, cands.last(), left, tail, on_path, u)
        } else {
            (u, false)
        }
    }
}

/// What the loop makes of a tally at one candidate, and whether it goes on.
spec fn run_one(
    opts: ScanOpts,
    g: Graph,
    target: usize,
    e: Pointer,
    left: nat,
    tail: Seq<usize>,
    on_path: Set<usize>,
    t: Tally,
) -> (Tally, bool)
    decreases left, 0nat, 0nat,
{
    let u = counted(t);
    let rest = seq![(target - e.0) as usize] + tail;
    if stopped(opts, u) {
        (u, false)
    } else if g.image.holds(e.1) {
        if left == 1 {
            let r = ((e.1 - g.image.base) as usize, rest);
            (Tally { found: u.found.push(r), nodes: u.nodes }, true)
        } else {
            (u, true)
        }
    } else if left == 0 {
        (u, true)
    } else {
        (run(opts, g, e.1, (left - 1) as nat, rest, on_path, u), true)
    }
}

/// The tally after one more visit.
spec fn tally_visit(opts: ScanOpts, t: Tally, visit: Option<Route>) -> Tally {
    if stopped(opts, t) {
        t
    } else if t.nodes + 1 >= opts.node_budget {
        Tally { found: t.found, nodes: t.nodes + 1 }
    } else {
        Tally {
            found: match visit {
                Some(r) => t.found.push(r),
                None => t.found,
            },
            nodes: t.nodes + 1,
        }
    }
}

/// The tally after all of `visits`.
spec fn tally(opts: ScanOpts, t: Tally, visits: Seq<Option<Route>>) -> Tally
    decreases visits.len(),
{
    if visits.len() == 0 {
        t
    } else {
        tally_visit(opts, tally(opts, t, visits.drop_last()), visits.last())
    }
}

/// Two tallies say the same, as far as it matters once the walk is stopped.
spec fn agrees(opts: ScanOpts, t: Tally, u: Tally) -> bool {
    &&& t.found == u.found
    &&& stopped(opts, t) == stopped(opts, u)
    &&& !stopped(opts, t) ==> t.nodes == u.nodes
}

/// The tally that `results` and `nodes` stand for.
spec fn tally_of(results: Seq<PointerPath>, nodes: usize) -> Tally {
    Tally { found: path::routes(results), nodes: nodes as int }
}

proof fn lemma_tally_add(
    opts: ScanOpts,
    t: Tally,
    a: Seq<Option<Route>>,
    b: Seq<Option<Route>>,
)
    ensures
        tally(opts, t, a + b) == tally(opts, tally(opts, t, a), b),
    decreases b.len(),
{
    if b.len() == 0 {
        assert(a + b =~= a);
    } else {
        assert((a + b).drop_last() =~= a + b.drop_last());
        lemma_tally_add(opts, t, a, b.drop_last());
    }
}

proof fn lemma_tally_stopped(opts: ScanOpts, t: Tally, visits: Seq<Option<Route>>)
    requires
        stopped(opts, t),
    ensures
        tally(opts, t, visits) == t,
    decreases visits.len(),
{
    if visits.len() > 0 {
        lemma_tally_stopped(opts, t, visits.drop_last());
    }
}

proof fn lemma_tally_one(opts: ScanOpts, t: Tally, visit: Option<Route>)
    ensures
        tally(opts, t, seq![visit]) == tally_visit(opts, t, visit),
{
    assert(seq![visit].drop_last() =~= Seq::empty());
    assert(tally(opts, t, Seq::empty()) == t);
}

/// The visit that reaches the budget is the last, and completes nothing.
proof fn lemma_tally_next_stops(opts: ScanOpts, t: Tally, visits: Seq<Option<Route>>)
    requires
        visits.len() > 0,
        !stopped(opts, t),
        t.nodes + 1 >= opts.node_budget,
    ensures
        tally(opts, t, visits) == (Tally { found: t.found, nodes: t.nodes + 1 }),
{
    let rest = visits.subrange(1, visits.len() as int);
    assert(visits =~= seq![visits[0]] + rest);
    lemma_tally_add(opts, t, seq![visits[0]], rest);
    lemma_tally_one(opts, t, visits[0]);
    lemma_tally_stopped(opts, tally(opts, t, seq![visits[0]]), rest);
}

/// What a tally comes to: the routes of the visits within the budget, as far as there is room.
proof fn lemma_tally_result(opts: ScanOpts, t: Tally, visits: Seq<Option<Route>>)
    requires
        t.found.len() <= opts.max_results,
        0 <= t.nodes,
    ensures
        tally(opts, t, visits).found == first(
            t.found + completed(first(visits, opts.node_budget - 1 - t.nodes)),
            opts.max_results as int,
        ),
        tally(opts, t, visits).nodes <= t.nodes + visits.len(),
        !stopped(opts, tally(opts, t, visits)) ==> tally(opts, t, visits).nodes == t.nodes
            + visits.len(),
    decreases visits.len(),
{
    let cap = opts.max_results as int;
    let room = opts.node_budget - 1 - t.nodes;
    let id = |v: Option<Route>| v;
    if visits.len() == 0 {
        assert(first(visits, room) =~= visits);
        assert(completed(visits) =~= Seq::empty());
        assert(t.found + Seq::empty() =~= t.found);
    } else {
        let init = visits.drop_last();
        lemma_tally_result(opts, t, init);
        let t1 = tally(opts, t, init);
        let t2 = tally(opts, t, visits);
        let had = t.found + completed(first(init, room));
        let has = t.found + completed(first(visits, room));
        if visits.len() <= room {
            assert(first(visits, room) =~= visits);
            assert(first(init, room) =~= init);
            assert(completed(visits) == (match visits.last() {
                Some(r) => completed(init) + seq![r],
                None => completed(init),
            }));
            if t1.found.len() >= cap {
                assert(first(has, cap) =~= first(had, cap));
            } else {
                assert(t1.found =~= had);
                assert(t2.found =~= has);
                assert(first(has, cap) =~= has);
            }
        } else {
            assert(first(visits, room) =~= first(init, room));
            assert(t2.found == t1.found);
        }
    }
}

/// A walk comes to what the tally of its visits comes to.
proof fn lemma_run(
    opts: ScanOpts,
    g: Graph,
    target: usize,
    left: nat,
    tail: Seq<usize>,
    on_path: Set<usize>,
    t: Tally,
    u: Tally,
)
    requires
        agrees(opts, t, u),
    ensures
        agrees(
            opts,
            tally(opts, t, walk(g, target, left, tail, on_path)),
            run(opts, g, target, left, tail, on_path, u),
        ),
    decreases left, 1nat, 0nat,
{
    if stopped(opts, u) {
        lemma_tally_stopped(opts, t, walk(g, target, left, tail, on_path));
    } else if left > 0 && !on_path.contains(target) {
        lemma_run_each(
            opts,
            g,
            target,
            g.candidates(target),
            left,
            tail,
            on_path.insert(target),
            t,
            u,
        );
    }
}

proof fn lemma_run_each(
    opts: ScanOpts,
    g: Graph,
    target: usize,
    cands: Seq<Pointer>,
    left: nat,
    tail: Seq<usize>,
    on_path: Set<usize>,
    t: Tally,
    u: Tally,
)
    requires
        left > 0,
        agrees(opts, t, u),
    ensures
        agrees(
            opts,
            tally(opts, t, walk_each(g, target, cands, left, tail, on_path)),
            run_each(opts, g, target, cands, left, tail, on_path, u).0,
        ),
        !run_each(opts, g, target, cands, left, tail, on_path, u).1 ==> stopped(
            opts,
            run_each(opts, g, target, cands, left, tail, on_path, u).0,
        ),
    decreases left, 0nat, cands.len(),
{
    if cands.len() > 0 {
        let init = cands.drop_last();
        let e = cands.last();
        let before = walk_each(g, target, init, left, tail, on_path);
        let step = walk_one(g, target, e, left, tail, on_path);
        let (u1, going) = run_each(opts, g, target, init, left, tail, on_path, u);
        let t1 = tally(opts, t, before);
        lemma_run_each(opts, g, target, init, left, tail, on_path, t, u);
        lemma_tally_add(opts, t, before, step);
        let last = run_one(opts, g, target, e, left, tail, on_path, u1);
        assert(run_each(opts, g, target, cands, left, tail, on_path, u) == if going {
            last
        } else {
            (u1, false)
        });
        if stopped(opts, t1) {
            lemma_tally_stopped(opts, t1, step);
        } else if stopped(opts, counted(u1)) {
            lemma_tally_next_stops(opts, t1, step);
        } else if g.image.holds(e.1) {
            lemma_tally_one(opts, t1, step[0]);
            assert(step =~= seq![step[0]]);
        } else {
            let rest = seq![(target - e.0) as usize] + tail;
            let t2 = tally(opts, t1, seq![None]);
            lemma_tally_one(opts, t1, None);
            lemma_tally_add(
                opts,
                t1,
                seq![None],
                walk(g, e.1, (left - 1) as nat, rest, on_path),
            );
            lemma_run(opts, g, e.1, (left - 1) as nat, rest, on_path, t2, counted(u1));
        }
    }
}

/// A loop that has ended early makes no more of its tally.
proof fn lemma_run_ended(
    opts: ScanOpts,
    g: Graph,
    target: usize,
    cands: Seq<Pointer>,
    i: int,
    left: nat,
    tail: Seq<usize>,
    on_path: Set<usize>,
    t: Tally,
)
    requires
        0 <= i <= cands.len(),
        !run_each(opts, g, target, cands.take(i), left, tail, on_path, t).1,
    ensures
        run_each(opts, g, target, cands, left, tail, on_path, t) == run_each(
            opts,
            g,
            target,
            cands.take(i),
            left,
            tail,
            on_path,
            t,
        ),
    decreases cands.len(),
{
    if i == cands.len() {
        assert(cands.take(i) =~= cands);
    } else {
        assert(cands.drop_last().take(i) =~= cands.take(i));
        lemma_run_ended(opts, g, target, cands.drop_last(), i, left, tail, on_path, t);
    }
}

/// The candidates are those whose value lies between the lowest in reach and the target.
pub(crate) proof fn lemma_candidates(ptrs: Seq<Pointer>, target: usize, max_offset: usize)
    ensures
        ptrs.filter(pointers::valued(target - max_offset, target as int)) == ptrs.filter(
            pointers::valued(target.saturating_sub(max_offset) as int, target as int),
        ),
        forall|k: int|
            0 <= k < ptrs.filter(pointers::valued(target - max_offset, target as int)).len()
                ==> (#[trigger] ptrs.filter(
                pointers::valued(target - max_offset, target as int),
            )[k]).0 <= target,
{
    let near = pointers::valued(target - max_offset, target as int);
    assert(near =~= pointers::valued(target.saturating_sub(max_offset) as int, target as int));
    assert forall|k: int| 0 <= k < ptrs.filter(near).len() implies (#[trigger] ptrs.filter(
        near,
    )[k]).0 <= target by {
        ptrs.lemma_filter_pred(near, k);
    }
}

/// A vector, back to front.
pub(crate) fn reversed(v: &Vec<usize>) -> (r: Vec<usize>)
    ensures
        r@ == v@.reverse(),
{
    let mut r: Vec<usize> = Vec::new();
    let mut i = v.len();
    while i > 0
        invariant
            i <= v.len(),
            r@ == v@.reverse().take(v.len() - i),
        decreases i,
    {
        i = i - 1;
        r.push(v[i]);
        assert(r@ =~= v@.reverse().take(v.len() - i));
    }
    assert(r@ =~= v@.reverse());
    r
}

impl PointerMap {
    /// Walks back from `target`, collecting in `results` the routes that end at it and have `limit`
    /// dereferences in all, of which `depth` lie behind, and counting the visits in `nodes`.
    #[verifier::rlimit(50)]
    fn reverse_rec(
        &self,
        image: Image,
        target: usize,
        opts: &ScanOpts,
        limit: usize,
        depth: usize,
        acc: &mut Vec<usize>,
        results: &mut Vec<PointerPath>,
        nodes: &mut usize,
        on_path: &mut HashSet<usize>,
    )
        ensures
            final(acc)@ == old(acc)@,
            final(on_path)@ == old(on_path)@,
            tally_of(final(results)@, *final(nodes)) == run(
                *opts,
                (Graph { ptrs: self@, image, max_offset: opts.max_offset }),
                target,
                levels_left(limit, depth),
                old(acc)@.reverse(),
                old(on_path)@,
                tally_of(old(results)@, *old(nodes)),
            ),
            stopped(*opts, tally_of(old(results)@, *old(nodes))) || depth >= limit || old(
                on_path,
            )@.contains(target) ==> final(results)@ == old(results)@ && *final(nodes) == *old(
                nodes,
            ),
        decreases limit - depth,
    {
        broadcast use vstd::std_specs::hash::group_hash_axioms;

        let ghost g = Graph { ptrs: self@, image, max_offset: opts.max_offset };
        let ghost left = levels_left(limit, depth);
        let ghost tail = acc@.reverse();
        let ghost t0 = tally_of(results@, *nodes);
        if results.len() >= opts.max_results || *nodes >= opts.node_budget {
            return ;
        }
        if depth >= limit {
            return ;
        }
        let ghost outer = on_path@;
        if !on_path.insert(target) {
            assert(on_path@ =~= outer);
            return ;
        }
        let ghost inner = on_path@;
        let lo = target.saturating_sub(opts.max_offset) as u64;
        let hi = target as u64;
        let candidates: Vec<Pointer> = slice_to_vec(self.ptrs_in_range(lo, hi));
        proof {
            lemma_candidates(self@, target, opts.max_offset);
        }
        let mut i: usize = 0;
        let mut going = true;
        assert(candidates@.take(0) =~= Seq::empty());
        while going && i < candidates.len()
            invariant
                depth < limit,
                left == limit - depth,
                i <= candidates.len(),
                candidates@ == g.candidates(target),
                g == (Graph { ptrs: self@, image, max_offset: opts.max_offset }),
                acc@.reverse() == tail,
                acc@ == old(acc)@,
                on_path@ == inner,
                forall|k: int|
                    0 <= k < candidates@.len() ==> (#[trigger] candidates@[k]).0 <= target,
                (tally_of(results@, *nodes), going) == run_each(
                    *opts,
                    g,
                    target,
                    candidates@.take(i as int),
                    left,
                    tail,
                    inner,
                    t0,
                ),
            decreases candidates.len() - i,
        {
            let (value, loc) = candidates[i];
            let ghost t = tally_of(results@, *nodes);
            assert(candidates@.take(i + 1).drop_last() =~= candidates@.take(i as int));
            i = i + 1;
            *nodes = nodes.saturating_add(1);
            assert(tally_of(results@, *nodes) == counted(t));
            let ghost step = run_one(
                *opts,
                g,
                target,
                candidates@[i - 1],
                left,
                tail,
                inner,
                t,
            );
            if results.len() >= opts.max_results || *nodes >= opts.node_budget {
                going = false;
            } else {
                let offset = target - value as usize;
                let ghost rest = seq![offset] + tail;
                if image.contains(loc) {
                    // Terminal: `loc` is base+rva, dereferenced to give this pointer. Only chains
                    // of exactly the current limit's length are emitted, so that each length comes
                    // once.
                    if depth + 1 == limit {
                        let rva = loc - image.base;
                        let mut line: Vec<usize> = acc.clone();
                        assert(line@ =~= acc@);
                        line.push(offset);
                        let rest_vec = reversed(&line);
                        let ghost results1 = results@;
                        results.push(PointerPath { rva, rest: rest_vec });
                        proof {
                            assert(rest_vec@ =~= rest);
                            assert(path::routes(results@) =~= path::routes(results1).push(
                                (rva, rest),
                            ));
                        }
                    }
                } else {
                    // `loc` becomes the address to reach.
                    acc.push(offset);
                    assert(acc@.reverse() =~= rest);
                    self.reverse_rec(
                        image,
                        loc,
                        opts,
                        limit,
                        depth + 1,
                        acc,
                        results,
                        nodes,
                        on_path,
                    );
                    let _ = acc.pop();
                    assert(acc@ =~= old(acc)@);
                }
            }
            assert((tally_of(results@, *nodes), going) == step);
        }
        proof {
            if going {
                assert(candidates@.take(i as int) =~= candidates@);
            } else {
                lemma_run_ended(*opts, g, target, candidates@, i as int, left, tail, inner, t0);
            }
        }
        on_path.remove(&target);
        assert(on_path@ =~= outer);
    }

    /// Reverse pointer scan from `target` to the static data of `image`.
    ///
    /// Iterative deepening: exact 1-hop chains, then 2-hop, and so on up to `max_depth`, results
    /// accumulating at every depth. Shortest chains come first, but longer ones are kept too: a
    /// value often has a short alias chain plus a longer canonical one.
    pub fn reverse_scan(&self, image: Image, target: usize, opts: ScanOpts) -> (found: Vec<
        PointerPath,
    >)
        ensures
            scan_yields(
                (Graph { ptrs: self@, image, max_offset: opts.max_offset }),
                target,
                opts,
                path::routes(found@),
            ),
    {
        let ghost g = Graph { ptrs: self@, image, max_offset: opts.max_offset };
        let ghost t0 = Tally { found: Seq::empty(), nodes: 0 };
        let mut results: Vec<PointerPath> = Vec::new();
        // One count for all depths.
        let mut nodes: usize = 0;
        let mut limit: usize = 0;
        assert(path::routes(results@) =~= Seq::empty());
        while limit < opts.max_depth && results.len() < opts.max_results
            invariant
                limit <= opts.max_depth,
                g == (Graph { ptrs: self@, image, max_offset: opts.max_offset }),
                agrees(
                    opts,
                    tally(opts, t0, visits_to(g, target, limit as nat)),
                    tally_of(results@, nodes),
                ),
            decreases opts.max_depth - limit,
        {
            proof {
                let part = visits_to(g, target, limit as nat);
                let next = (limit + 1) as nat;
                lemma_tally_add(
                    opts,
                    t0,
                    part,
                    walk(g, target, next, Seq::empty(), Set::empty()),
                );
                lemma_run(
                    opts,
                    g,
                    target,
                    next,
                    Seq::empty(),
                    Set::empty(),
                    tally(opts, t0, part),
                    tally_of(results@, nodes),
                );
            }
            limit = limit + 1;
            // Addresses currently on the recursion stack: cycle guard only.
            let mut on_path: HashSet<usize> = HashSet::new();
            let mut acc: Vec<usize> = Vec::new();
            assert(acc@.reverse() =~= Seq::empty());
            self.reverse_rec(
                image,
                target,
                &opts,
                limit,
                0,
                &mut acc,
                &mut results,
                &mut nodes,
                &mut on_path,
            );
        }
        proof {
            let part = visits_to(g, target, limit as nat);
            let all = visits_to(g, target, opts.max_depth as nat);
            lemma_visits_to_prefix(g, target, limit as nat, opts.max_depth as nat);
            let more = all.skip(part.len() as int);
            assert(all =~= part + more);
            lemma_tally_add(opts, t0, part, more);
            if limit < opts.max_depth {
                lemma_tally_stopped(opts, tally(opts, t0, part), more);
            } else {
                assert(more =~= Seq::empty());
            }
            lemma_tally_result(opts, t0, all);
            let routes = completed(first(all, opts.node_budget - 1));
            assert(Seq::empty() + routes =~= routes);
            assert(path::routes(results@) =~= collected(g, target, opts));
        }
        let ghost unsorted = results@;
        let sorted = stable_sort(results);
        proof {
            sort::stable_sort_of_mapped(
                unsorted,
                sorted@,
                |p: PointerPath| p@,
                sort::own_rank(),
                path::route_rank(),
            );
        }
        let ghost all = path::routes(sorted@);
        let found = drop_repeats(sorted);
        assert(sort::stable_sort_of(collected(g, target, opts), all, path::route_rank()));
        found
    }
}

/// Fewer depths give a first part of the visits.
pub(crate) proof fn lemma_visits_to_prefix(g: Graph, target: usize, a: nat, b: nat)
    requires
        a <= b,
    ensures
        visits_to(g, target, a).len() <= visits_to(g, target, b).len(),
        visits_to(g, target, b).take(visits_to(g, target, a).len() as int) == visits_to(
            g,
            target,
            a,
        ),
    decreases b,
{
    let va = visits_to(g, target, a);
    let vb = visits_to(g, target, b);
    if a < b {
        lemma_visits_to_prefix(g, target, a, (b - 1) as nat);
        let vc = visits_to(g, target, (b - 1) as nat);
        assert(vb.take(va.len() as int) =~= vc.take(va.len() as int));
    }
    assert(vb.take(va.len() as int) =~= va);
}

/// Drops the paths that equal the one right before them.
fn drop_repeats(paths: Vec<PointerPath>) -> (out: Vec<PointerPath>)
    ensures
        path::routes(out@) == sort::without_repeats(path::routes(paths@)),
{
    let ghost all = path::routes(paths@);
    let mut paths = paths;
    let mut backward: Vec<PointerPath> = Vec::new();
    assert(path::routes(backward@.reverse()) =~= Seq::empty());
    assert(sort::without_repeats(all) + Seq::empty() =~= sort::without_repeats(all));
    while paths.len() > 0
        invariant
            sort::without_repeats(all) == sort::without_repeats(path::routes(paths@))
                + path::routes(backward@.reverse()),
        decreases paths.len(),
    {
        let ghost paths1 = paths@;
        let ghost backward1 = backward@;
        let p = paths.pop().unwrap();
        let repeats = paths.len() > 0 && paths[paths.len() - 1].same(&p);
        assert(path::routes(paths1).drop_last() =~= path::routes(paths@));
        if !repeats {
            backward.push(p);
            proof {
                assert(path::routes(backward@.reverse()) =~= seq![p@] + path::routes(
                    backward1.reverse(),
                ));
                assert(sort::without_repeats(path::routes(paths1)) =~= sort::without_repeats(
                    path::routes(paths@),
                ).push(p@));
                assert(sort::without_repeats(path::routes(paths1)) + path::routes(
                    backward1.reverse(),
                ) =~= sort::without_repeats(path::routes(paths@)) + path::routes(
                    backward@.reverse(),
                ));
            }
        }
    }
    assert(path::routes(backward@.reverse()) =~= sort::without_repeats(all));
    let mut out: Vec<PointerPath> = Vec::new();
    let ghost kept = backward@.reverse();
    while backward.len() > 0
        invariant
            out@ + backward@.reverse() == kept,
        decreases backward.len(),
    {
        let ghost out1 = out@;
        let ghost backward1 = backward@;
        let p = backward.pop().unwrap();
        out.push(p);
        assert(out@ + backward@.reverse() =~= out1 + backward1.reverse());
    }
    assert(out@ =~= kept);
    out
}

} // verus!
