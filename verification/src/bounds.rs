//! What a scan yields under wider bounds.
use crate::chain;
use crate::path;
use crate::path::{Route, ScanOpts};
use crate::reverse;
use crate::reverse::Graph;
use crate::sort;
use vstd::prelude::*;

verus! {

/// A scan that may go one dereference deeper yields what the shallower scan yields, in the same
/// order, and behind that only routes of the new depth.
pub proof fn deeper_scan_extends(
    g: Graph,
    target: usize,
    opts: ScanOpts,
    deeper: ScanOpts,
    found: Seq<Route>,
    more: Seq<Route>,
)
    requires
        deeper == (ScanOpts { max_depth: deeper.max_depth, ..opts }),
        deeper.max_depth == opts.max_depth + 1,
        reverse::scan_yields(g, target, opts, found),
        reverse::scan_yields(g, target, deeper, more),
    ensures
        found.len() <= more.len(),
        more.take(found.len() as int) == found,
        forall|i: int|
            found.len() <= i < more.len() ==> path::route_depth(#[trigger] more[i])
                == deeper.max_depth,
{
    let rank = path::route_rank();
    let cap = opts.max_results as int;
    let depth = opts.max_depth as nat;
    let routes = reverse::routes_to(g, target, opts.node_budget, depth);
    let added = chain::lemma_routes_to_next(g, target, opts.node_budget, depth);
    let a = reverse::collected(g, target, opts);
    let b = reverse::first(added, cap - routes.len());
    assert(reverse::collected(g, target, deeper) =~= a + b);
    assert forall|x: Route| #[trigger] a.contains(x) implies path::route_depth(x) <= depth by {
        chain::lemma_first_contains(routes, cap, x);
        chain::lemma_routes_to_sound(g, target, opts.node_budget, depth, x);
    }
    assert forall|y: Route| #[trigger] b.contains(y) implies path::route_depth(y) == depth + 1 by {
        chain::lemma_first_contains(added, cap - routes.len(), y);
        let i = choose|i: int| 0 <= i < added.len() && added[i] == y;
        assert(added[i].1.len() == depth + 1);
    }
    assert(sort::ranks_below(a, b, rank));
    let sorted_a = choose|s: Seq<Route>| #[trigger]
        sort::stable_sort_of(a, s, rank) && found == sort::without_repeats(s);
    let sorted = choose|s: Seq<Route>| #[trigger]
        sort::stable_sort_of(reverse::collected(g, target, deeper), s, rank) && more
            == sort::without_repeats(s);
    let sorted_b = sort::stable_sort_of_parts(a, b, sorted_a, sorted, rank);
    if sorted_a.len() > 0 && sorted_b.len() > 0 {
        let x = sorted_a.last();
        let y = sorted_b[0];
        sort::stable_sort_keeps_elements(a, sorted_a, rank, x);
        sort::stable_sort_keeps_elements(b, sorted_b, rank, y);
        assert(sorted_a.contains(x) && sorted_b.contains(y));
    }
    sort::without_repeats_of_parts(sorted_a, sorted_b);
    let end = sort::without_repeats(sorted_b);
    assert(more == found + end);
    assert(more.take(found.len() as int) =~= found);
    assert forall|i: int| found.len() <= i < more.len() implies path::route_depth(#[trigger] more[i])
        == deeper.max_depth by {
        let y = more[i];
        assert(end[i - found.len()] == y);
        assert(end.contains(y));
        sort::without_repeats_keeps_values(sorted_b, rank);
        sort::stable_sort_keeps_elements(b, sorted_b, rank, y);
        assert(sorted_b.contains(y));
    }
}

/// Routes are collected shallow ones first.
proof fn lemma_routes_deepen(g: Graph, target: usize, node_budget: usize, depth: nat)
    ensures
        forall|i: int, j: int|
            #![trigger reverse::routes_to(g, target, node_budget, depth)[i], reverse::routes_to(
                g,
                target,
                node_budget,
                depth,
            )[j]]
            0 <= i < j < reverse::routes_to(g, target, node_budget, depth).len()
                ==> path::route_depth(reverse::routes_to(g, target, node_budget, depth)[i])
                <= path::route_depth(reverse::routes_to(g, target, node_budget, depth)[j]),
    decreases depth,
{
    let all = reverse::routes_to(g, target, node_budget, depth);
    if depth == 0 {
        assert(all =~= Seq::empty());
    } else {
        let prev = (depth - 1) as nat;
        let before = reverse::routes_to(g, target, node_budget, prev);
        lemma_routes_deepen(g, target, node_budget, prev);
        let added = chain::lemma_routes_to_next(g, target, node_budget, prev);
        assert forall|i: int, j: int|
            #![trigger all[i], all[j]]
            0 <= i < j < all.len() implies path::route_depth(all[i]) <= path::route_depth(
            all[j],
        ) by {
            if j < before.len() {
                assert(all[i] == before[i] && all[j] == before[j]);
            } else {
                assert(all[j] == added[j - before.len()]);
                if i < before.len() {
                    assert(before.contains(before[i]));
                    chain::lemma_routes_to_sound(g, target, node_budget, prev, before[i]);
                } else {
                    assert(all[i] == added[i - before.len()]);
                }
            }
        }
    }
}

/// A scan with a larger cap on results yields every route of the scan with the smaller one, and
/// what it adds is at least as deep: the cap drops no chain in favour of a longer one.
pub proof fn larger_cap_keeps_routes(
    g: Graph,
    target: usize,
    opts: ScanOpts,
    larger: ScanOpts,
    found: Seq<Route>,
    more: Seq<Route>,
    r: Route,
)
    requires
        larger == (ScanOpts { max_results: larger.max_results, ..opts }),
        opts.max_results <= larger.max_results,
        reverse::scan_yields(g, target, opts, found),
        reverse::scan_yields(g, target, larger, more),
    ensures
        found.contains(r) ==> more.contains(r),
        more.contains(r) && !found.contains(r) ==> forall|i: int|
            0 <= i < found.len() ==> path::route_depth(#[trigger] found[i]) <= path::route_depth(r),
{
    let all = reverse::routes_to(g, target, opts.node_budget, opts.max_depth as nat);
    let a = reverse::collected(g, target, opts);
    let b = reverse::collected(g, target, larger);
    chain::lemma_scan_members(g, target, opts, found, r);
    chain::lemma_scan_members(g, target, larger, more, r);
    if found.contains(r) {
        let i = choose|i: int| 0 <= i < a.len() && a[i] == r;
        assert(b[i] == r);
    }
    if more.contains(r) && !found.contains(r) {
        let n = choose|n: int| 0 <= n < b.len() && b[n] == r;
        assert(b[n] == all[n]);
        assert(n >= a.len()) by {
            if n < a.len() {
                assert(a[n] == r);
            }
        }
        assert forall|i: int| 0 <= i < found.len() implies path::route_depth(#[trigger] found[i])
            <= path::route_depth(r) by {
            assert(found.contains(found[i]));
            chain::lemma_scan_members(g, target, opts, found, found[i]);
            let m = choose|m: int| 0 <= m < a.len() && a[m] == found[i];
            assert(a[m] == all[m]);
            lemma_routes_deepen(g, target, opts.node_budget, opts.max_depth as nat);
        }
    }
}

} // verus!
