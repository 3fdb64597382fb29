//! What the scans of memory find, hit by hit.
use crate::bytes;
use crate::chain;
use crate::pointers::Pointer;
use crate::region;
use crate::region::Region;
use crate::scan;
use crate::sort;
use vstd::prelude::*;

verus! {

/// What `f` makes of the `i`-th region, if that could be read, holds `x`.
pub open spec fn made_of<T>(
    regions: Seq<Region>,
    bufs: Seq<Option<Seq<u8>>>,
    f: spec_fn(usize, Seq<u8>) -> Seq<T>,
    x: T,
    i: int,
) -> bool {
    bufs[i] matches Some(b) && f(regions[i].addr, b).contains(x)
}

/// A scan finds exactly what it makes of each region that could be read.
pub proof fn scan_gathers_every_region<T>(
    regions: Seq<Region>,
    bufs: Seq<Option<Seq<u8>>>,
    f: spec_fn(usize, Seq<u8>) -> Seq<T>,
    x: T,
)
    requires
        regions.len() == bufs.len(),
    ensures
        scan::gathered(regions, bufs, f).contains(x) <==> exists|i: int|
            0 <= i < regions.len() && #[trigger] made_of(regions, bufs, f, x, i),
    decreases regions.len(),
{
    let all = scan::gathered(regions, bufs, f);
    if regions.len() > 0 {
        let r2 = regions.drop_last();
        let b2 = bufs.drop_last();
        let n = regions.len() - 1;
        let init = scan::gathered(r2, b2, f);
        let end = match bufs.last() {
            Some(b) => f(regions.last().addr, b),
            None => Seq::empty(),
        };
        scan_gathers_every_region(r2, b2, f, x);
        if all.contains(x) {
            let k = choose|k: int| 0 <= k < all.len() && all[k] == x;
            if k < init.len() {
                assert(init[k] == x);
                assert(init.contains(x));
                let i = choose|i: int| 0 <= i < r2.len() && #[trigger] made_of(r2, b2, f, x, i);
                assert(made_of(regions, bufs, f, x, i));
            } else {
                assert(end[k - init.len()] == x);
                assert(made_of(regions, bufs, f, x, n));
            }
        }
        if exists|i: int| 0 <= i < regions.len() && #[trigger] made_of(regions, bufs, f, x, i) {
            let i = choose|i: int|
                0 <= i < regions.len() && #[trigger] made_of(regions, bufs, f, x, i);
            if i < n {
                assert(made_of(r2, b2, f, x, i));
                let k = choose|k: int| 0 <= k < init.len() && init[k] == x;
                assert(all[k] == x);
            } else {
                let k = choose|k: int| 0 <= k < end.len() && end[k] == x;
                assert(all[init.len() + k] == x);
            }
        }
    }
}

/// The `k`-th eight-byte word of the `i`-th region could be read.
pub open spec fn has_word(bufs: Seq<Option<Seq<u8>>>, i: int, k: int) -> bool {
    &&& 0 <= i < bufs.len()
    &&& bufs[i] is Some
    &&& 0 <= k
    &&& 8 * k + 8 <= bufs[i]->Some_0.len()
}

/// The `k`-th eight-byte word of the `i`-th region.
pub open spec fn word(bufs: Seq<Option<Seq<u8>>>, i: int, k: int) -> u64 {
    bytes::le_at(bufs[i]->Some_0, 8 * k, 8) as u64
}

/// The address of the `k`-th eight-byte word of the `i`-th region.
pub open spec fn word_addr(regions: Seq<Region>, i: int, k: int) -> usize {
    regions[i].addr.wrapping_add((8 * k) as usize)
}

/// In a region that starts at a multiple of eight, the words looked at are those at the multiples
/// of eight.
pub proof fn words_are_aligned(regions: Seq<Region>, bufs: Seq<Option<Seq<u8>>>, i: int, k: int)
    requires
        has_word(bufs, i, k),
        regions[i].addr % 8 == 0,
        regions[i].addr + bufs[i]->Some_0.len() <= usize::MAX,
    ensures
        word_addr(regions, i, k) % 8 == 0,
        word_addr(regions, i, k) == regions[i].addr + 8 * k,
{
}

/// `x` is the address of the `k`-th four-byte word of a buffer read at `addr`.
pub open spec fn is_word_at(addr: usize, buf: Seq<u8>, x: usize, k: int) -> bool {
    0 <= k && 4 * k + 4 <= buf.len() && x == addr.wrapping_add((4 * k) as usize)
}

/// The words that a test keeps are those that it may hold of, and the words that it does not keep
/// are among those that it may fail.
pub proof fn kept_words_are_those_that_pass<F: Fn(u32) -> bool>(
    test: F,
    addr: usize,
    buf: Seq<u8>,
    hits: Seq<usize>,
)
    requires
        bytes::may_keep(test, addr, buf, hits),
    ensures
        forall|x: usize| #[trigger]
            hits.contains(x) ==> exists|k: int| #[trigger]
                is_word_at(addr, buf, x, k) && test.ensures(
                    (bytes::le_at(buf, 4 * k, 4) as u32,),
                    true,
                ),
        forall|x: usize, k: int| #[trigger]
            is_word_at(addr, buf, x, k) ==> hits.contains(x) || test.ensures(
                (bytes::le_at(buf, 4 * k, 4) as u32,),
                false,
            ),
{
    let marks = choose|marks: Seq<bool>| #[trigger]
        bytes::may_mark(test, buf, marks) && hits == bytes::picks(
            marks.len() as int,
            bytes::marked_word(addr, marks),
        );
    let f = bytes::marked_word(addr, marks);
    let n = marks.len() as int;
    assert forall|x: usize| #[trigger] hits.contains(x) implies exists|k: int| #[trigger]
        is_word_at(addr, buf, x, k) && test.ensures((bytes::le_at(buf, 4 * k, 4) as u32,), true) by {
        bytes::picks_are_what_f_gives(n, f, x);
        let k = choose|k: int| 0 <= k < n && #[trigger] f(k) == Some(x);
        assert(marks[k]);
        assert(is_word_at(addr, buf, x, k));
    }
    assert forall|x: usize, k: int| #[trigger] is_word_at(addr, buf, x, k) implies hits.contains(x)
        || test.ensures((bytes::le_at(buf, 4 * k, 4) as u32,), false) by {
        bytes::picks_are_what_f_gives(n, f, x);
        if marks[k] {
            assert(f(k) == Some(x));
        }
    }
}

/// The scan for numbers finds exactly the words within `tol` of `target`.
pub proof fn near_scan_is_exact(
    regions: Seq<Region>,
    bufs: Seq<Option<Seq<u8>>>,
    target: i64,
    tol: i64,
    addr: usize,
)
    requires
        regions.len() == bufs.len(),
    ensures
        scan::gathered(regions, bufs, scan::near_in(target, tol)).contains(addr) <==> exists|
            i: int,
            k: int,
        |
            #![trigger word(bufs, i, k)]
            has_word(bufs, i, k) && bytes::within(word(bufs, i, k), target, tol) && addr
                == word_addr(regions, i, k),
{
    let f = scan::near_in(target, tol);
    scan_gathers_every_region(regions, bufs, f, addr);
    assert forall|i: int| 0 <= i < bufs.len() && bufs[i] is Some implies #[trigger] made_of(
        regions,
        bufs,
        f,
        addr,
        i,
    ) == exists|k: int|
        has_word(bufs, i, k) && bytes::within(#[trigger] word(bufs, i, k), target, tol) && addr
            == word_addr(regions, i, k) by {
        let b = bufs[i]->Some_0;
        let pick = bytes::near_word(regions[i].addr, b, target, tol);
        bytes::picks_are_what_f_gives(b.len() as int / 8, pick, addr);
        if made_of(regions, bufs, f, addr, i) {
            let k = choose|k: int| 0 <= k < b.len() as int / 8 && #[trigger] pick(k) == Some(addr);
            assert(has_word(bufs, i, k) && bytes::within(word(bufs, i, k), target, tol));
        }
        if exists|k: int|
            has_word(bufs, i, k) && bytes::within(#[trigger] word(bufs, i, k), target, tol) && addr
                == word_addr(regions, i, k) {
            let k = choose|k: int|
                has_word(bufs, i, k) && bytes::within(#[trigger] word(bufs, i, k), target, tol)
                    && addr == word_addr(regions, i, k);
            assert(pick(k) == Some(addr));
        }
    }
    if scan::gathered(regions, bufs, f).contains(addr) {
        let i = choose|i: int|
            0 <= i < regions.len() && #[trigger] made_of(regions, bufs, f, addr, i);
        assert(bufs[i] is Some);
    }
    if exists|i: int, k: int|
        #![trigger word(bufs, i, k)]
        has_word(bufs, i, k) && bytes::within(word(bufs, i, k), target, tol) && addr == word_addr(
            regions,
            i,
            k,
        ) {
        let (i, k) = choose|i: int, k: int|
            #![trigger word(bufs, i, k)]
            has_word(bufs, i, k) && bytes::within(word(bufs, i, k), target, tol) && addr
                == word_addr(regions, i, k);
        assert(made_of(regions, bufs, f, addr, i));
    }
}

/// The pointer map holds exactly the words that point into a readable region, each with the
/// location that holds it, and holds them in the order of their values.
pub proof fn pointer_map_is_exact(
    readable: Seq<Region>,
    regions: Seq<Region>,
    bufs: Seq<Option<Seq<u8>>>,
    map: Seq<Pointer>,
    e: Pointer,
)
    requires
        regions.len() == bufs.len(),
        sort::stable_sort_of(
            scan::gathered(regions, bufs, scan::pointers_in(readable)),
            map,
            sort::own_rank(),
        ),
    ensures
        map.contains(e) <==> exists|i: int, k: int|
            #![trigger word(bufs, i, k)]
            has_word(bufs, i, k) && region::readable(readable, word(bufs, i, k) as usize) && e == (
                word(bufs, i, k),
                word_addr(regions, i, k),
            ),
        forall|i: int, j: int|
            #![trigger map[i], map[j]]
            0 <= i < j < map.len() ==> map[i].0 <= map[j].0,
{
    let f = scan::pointers_in(readable);
    let found = scan::gathered(regions, bufs, f);
    sort::stable_sort_keeps_elements(found, map, sort::own_rank(), e);
    scan_gathers_every_region(regions, bufs, f, e);
    assert forall|i: int| 0 <= i < bufs.len() && bufs[i] is Some implies #[trigger] made_of(
        regions,
        bufs,
        f,
        e,
        i,
    ) == exists|k: int|
        has_word(bufs, i, k) && region::readable(readable, #[trigger] word(bufs, i, k) as usize)
            && e == (word(bufs, i, k), word_addr(regions, i, k)) by {
        let b = bufs[i]->Some_0;
        let pick = scan::pointer_word(readable, regions[i].addr, b);
        bytes::picks_are_what_f_gives(b.len() as int / 8, pick, e);
        if made_of(regions, bufs, f, e, i) {
            let k = choose|k: int| 0 <= k < b.len() as int / 8 && #[trigger] pick(k) == Some(e);
            assert(has_word(bufs, i, k) && e == (word(bufs, i, k), word_addr(regions, i, k)));
        }
        if exists|k: int|
            has_word(bufs, i, k) && region::readable(readable, #[trigger] word(bufs, i, k) as usize)
                && e == (word(bufs, i, k), word_addr(regions, i, k)) {
            let k = choose|k: int|
                has_word(bufs, i, k) && region::readable(
                    readable,
                    #[trigger] word(bufs, i, k) as usize,
                ) && e == (word(bufs, i, k), word_addr(regions, i, k));
            assert(pick(k) == Some(e));
        }
    }
    if found.contains(e) {
        let i = choose|i: int| 0 <= i < regions.len() && #[trigger] made_of(regions, bufs, f, e, i);
        assert(bufs[i] is Some);
    }
    if exists|i: int, k: int|
        #![trigger word(bufs, i, k)]
        has_word(bufs, i, k) && region::readable(readable, word(bufs, i, k) as usize) && e == (
            word(bufs, i, k),
            word_addr(regions, i, k),
        ) {
        let (i, k) = choose|i: int, k: int|
            #![trigger word(bufs, i, k)]
            has_word(bufs, i, k) && region::readable(readable, word(bufs, i, k) as usize) && e == (
                word(bufs, i, k),
                word_addr(regions, i, k),
            );
        assert(made_of(regions, bufs, f, e, i));
    }
}

/// Locations come in ascending order.
spec fn ascending(s: Seq<Pointer>) -> bool {
    forall|i: int, j: int| #![trigger s[i], s[j]] 0 <= i < j < s.len() ==> s[i].1 < s[j].1
}

/// The pointers of one region lie within it, in ascending order.
proof fn lemma_pointers_ascend(readable: Seq<Region>, r: Region, b: Seq<u8>, n: int)
    requires
        0 <= n <= b.len() as int / 8,
        b.len() <= r.size,
        r.addr + r.size <= usize::MAX,
    ensures
        ascending(bytes::picks(n, scan::pointer_word(readable, r.addr, b))),
        forall|i: int|
            #![trigger bytes::picks(n, scan::pointer_word(readable, r.addr, b))[i]]
            0 <= i < bytes::picks(n, scan::pointer_word(readable, r.addr, b)).len() ==> r.addr
                <= bytes::picks(n, scan::pointer_word(readable, r.addr, b))[i].1 < r.addr + 8 * n,
    decreases n,
{
    let f = scan::pointer_word(readable, r.addr, b);
    if n == 0 {
        bytes::picks_next(0, f);
    } else {
        lemma_pointers_ascend(readable, r, b, n - 1);
        bytes::picks_next(n - 1, f);
        let some = bytes::picks(n - 1, f);
        let all = bytes::picks(n, f);
        assert forall|i: int| 0 <= i < all.len() implies r.addr <= (#[trigger] all[i]).1
            && all[i].1 < r.addr + 8 * n && (i < some.len() ==> all[i] == some[i]) && (i
            >= some.len() ==> all[i].1 == r.addr + 8 * (n - 1)) by {
            if i < some.len() {
                assert(all[i] == some[i]);
            }
        }
    }
}

/// Regions lie one behind the other, apart from each other.
pub open spec fn apart(regions: Seq<Region>) -> bool {
    forall|i: int, j: int|
        #![trigger regions[i], regions[j]]
        0 <= i < j < regions.len() ==> regions[i].addr + regions[i].size <= regions[j].addr
}

proof fn lemma_gathered_ascend(
    readable: Seq<Region>,
    regions: Seq<Region>,
    bufs: Seq<Option<Seq<u8>>>,
)
    requires
        regions.len() == bufs.len(),
        apart(regions),
        forall|i: int|
            0 <= i < regions.len() ==> (#[trigger] regions[i]).addr + regions[i].size
                <= usize::MAX,
        forall|i: int|
            0 <= i < bufs.len() && #[trigger] bufs[i] is Some ==> bufs[i]->Some_0.len()
                <= regions[i].size,
    ensures
        ascending(scan::gathered(regions, bufs, scan::pointers_in(readable))),
        forall|k: int|
            #![trigger scan::gathered(regions, bufs, scan::pointers_in(readable))[k]]
            0 <= k < scan::gathered(regions, bufs, scan::pointers_in(readable)).len()
                ==> scan::gathered(regions, bufs, scan::pointers_in(readable))[k].1
                < regions.last().addr + regions.last().size,
    decreases regions.len(),
{
    let f = scan::pointers_in(readable);
    if regions.len() > 0 {
        let r2 = regions.drop_last();
        let b2 = bufs.drop_last();
        let n = regions.len() - 1;
        assert forall|i: int| 0 <= i < b2.len() && #[trigger] b2[i] is Some implies b2[i]->Some_0.len()
            <= r2[i].size by {
            assert(b2[i] == bufs[i]);
        }
        lemma_gathered_ascend(readable, r2, b2);
        let init = scan::gathered(r2, b2, f);
        let all = scan::gathered(regions, bufs, f);
        let end = match bufs.last() {
            Some(b) => f(regions.last().addr, b),
            None => Seq::empty(),
        };
        assert(bufs.last() == bufs[n]);
        if bufs.last() is Some {
            let b = bufs.last()->Some_0;
            lemma_pointers_ascend(readable, regions.last(), b, b.len() as int / 8);
        }
        assert forall|k: int| 0 <= k < all.len() implies (k < init.len() ==> #[trigger] all[k]
            == init[k] && all[k].1 < regions[n].addr) && (k >= init.len() ==> all[k] == end[k
            - init.len()] && regions[n].addr <= all[k].1 < regions[n].addr + regions[n].size) by {
            if k < init.len() {
                assert(init[k].1 < r2.last().addr + r2.last().size);
                assert(regions[n - 1] == r2.last());
            }
        }
    }
}

proof fn lemma_filter_twice(s: Seq<Pointer>, keep: spec_fn(Pointer) -> bool, i: int, j: int)
    requires
        0 <= i < j < s.len(),
        keep(s[i]),
        keep(s[j]),
    ensures
        exists|a: int, b: int|
            0 <= a < b < s.filter(keep).len() && #[trigger] s.filter(keep)[a] == s[i]
                && #[trigger] s.filter(keep)[b] == s[j],
    decreases s.len(),
{
    reveal(Seq::filter);
    let init = s.drop_last();
    let all = s.filter(keep);
    let some = init.filter(keep);
    if j < s.len() - 1 {
        lemma_filter_twice(init, keep, i, j);
        let (a, b) = choose|a: int, b: int|
            0 <= a < b < some.len() && #[trigger] some[a] == init[i] && #[trigger] some[b]
                == init[j];
        assert(all[a] == s[i] && all[b] == s[j]);
    } else {
        init.lemma_filter_contains(keep, i);
        let a = choose|a: int| 0 <= a < some.len() && some[a] == init[i];
        assert(all[a] == s[i] && all[some.len() as int] == s[j]);
    }
}

proof fn lemma_filter_ascends(s: Seq<Pointer>, keep: spec_fn(Pointer) -> bool)
    requires
        ascending(s),
    ensures
        ascending(s.filter(keep)),
    decreases s.len(),
{
    reveal(Seq::filter);
    if s.len() > 0 {
        let init = s.drop_last();
        let some = init.filter(keep);
        let all = s.filter(keep);
        lemma_filter_ascends(init, keep);
        assert forall|i: int, j: int|
            #![trigger all[i], all[j]]
            0 <= i < j < all.len() implies all[i].1 < all[j].1 by {
            assert(all[i] == some[i]);
            if j < some.len() {
                assert(all[j] == some[j]);
            } else {
                assert(some.contains(some[i]));
                init.lemma_filter_contains_rev(keep, some[i]);
                let k = choose|k: int| 0 <= k < init.len() && init[k] == some[i];
                assert(s[k] == some[i]);
            }
        }
    }
}

/// The pointer map of regions that lie apart has no location twice.
pub proof fn pointer_map_locates_once(
    readable: Seq<Region>,
    regions: Seq<Region>,
    bufs: Seq<Option<Seq<u8>>>,
    map: Seq<Pointer>,
)
    requires
        regions.len() == bufs.len(),
        apart(regions),
        forall|i: int|
            0 <= i < regions.len() ==> (#[trigger] regions[i]).addr + regions[i].size
                <= usize::MAX,
        forall|i: int|
            0 <= i < bufs.len() && #[trigger] bufs[i] is Some ==> bufs[i]->Some_0.len()
                <= regions[i].size,
        sort::stable_sort_of(
            scan::gathered(regions, bufs, scan::pointers_in(readable)),
            map,
            sort::own_rank(),
        ),
    ensures
        chain::located_once(map),
{
    let found = scan::gathered(regions, bufs, scan::pointers_in(readable));
    let rank = sort::own_rank::<Pointer>();
    lemma_gathered_ascend(readable, regions, bufs);
    assert forall|i: int, j: int|
        #![trigger map[i], map[j]]
        0 <= i < j < map.len() implies map[i].1 != map[j].1 by {
        if map[i].1 == map[j].1 {
            sort::stable_sort_keeps_elements(found, map, rank, map[i]);
            sort::stable_sort_keeps_elements(found, map, rank, map[j]);
            assert(map.contains(map[i]) && map.contains(map[j]));
            let p = choose|p: int| 0 <= p < found.len() && found[p] == map[i];
            let q = choose|q: int| 0 <= q < found.len() && found[q] == map[j];
            assert(p == q);
            let keep = sort::has_rank(rank, rank(map[i]));
            assert(sort::with_rank(map, rank, rank(map[i])) == sort::with_rank(
                found,
                rank,
                rank(map[i]),
            ));
            lemma_filter_twice(map, keep, i, j);
            lemma_filter_ascends(found, keep);
        }
    }
}

/// In the pointer map of regions that lie apart, pointers of one value come by ascending location.
pub proof fn pointer_map_breaks_ties_by_location(
    readable: Seq<Region>,
    regions: Seq<Region>,
    bufs: Seq<Option<Seq<u8>>>,
    map: Seq<Pointer>,
    i: int,
    j: int,
)
    requires
        regions.len() == bufs.len(),
        apart(regions),
        forall|k: int|
            0 <= k < regions.len() ==> (#[trigger] regions[k]).addr + regions[k].size
                <= usize::MAX,
        forall|k: int|
            0 <= k < bufs.len() && #[trigger] bufs[k] is Some ==> bufs[k]->Some_0.len()
                <= regions[k].size,
        sort::stable_sort_of(
            scan::gathered(regions, bufs, scan::pointers_in(readable)),
            map,
            sort::own_rank(),
        ),
        0 <= i < j < map.len(),
        map[i].0 == map[j].0,
    ensures
        map[i].1 < map[j].1,
{
    let found = scan::gathered(regions, bufs, scan::pointers_in(readable));
    let rank = sort::own_rank::<Pointer>();
    let keep = sort::has_rank(rank, rank(map[i]));
    lemma_gathered_ascend(readable, regions, bufs);
    lemma_filter_ascends(found, keep);
    lemma_filter_twice(map, keep, i, j);
    assert(sort::with_rank(map, rank, rank(map[i])) == sort::with_rank(
        found,
        rank,
        rank(map[i]),
    ));
}

/// The forms in which a text is looked for.
pub open spec fn is_form(text: Seq<char>, pat: Seq<u8>) -> bool {
    pat == vstd::utf8::encode_utf8(text) || pat == bytes::utf16_text(text)
}

/// `text` stands at `at` in the `i`-th region, in the form `pat`.
pub open spec fn stands_at(
    bufs: Seq<Option<Seq<u8>>>,
    text: Seq<char>,
    pat: Seq<u8>,
    i: int,
    at: int,
) -> bool {
    &&& is_form(text, pat)
    &&& pat.len() > 0
    &&& 0 <= i < bufs.len()
    &&& bufs[i] is Some
    &&& 0 <= at
    &&& bytes::matches_at(bufs[i]->Some_0, pat, at)
}

/// Where the search for a text reports an address, the text stands there in one of its forms.
pub proof fn text_scan_is_sound(
    regions: Seq<Region>,
    bufs: Seq<Option<Seq<u8>>>,
    text: Seq<char>,
    addr: usize,
)
    requires
        regions.len() == bufs.len(),
        scan::gathered(regions, bufs, scan::text_in(text)).contains(addr),
    ensures
        exists|pat: Seq<u8>, i: int, at: int| #[trigger]
            stands_at(bufs, text, pat, i, at) && addr == regions[i].addr.wrapping_add(at as usize),
{
    let f = scan::text_in(text);
    scan_gathers_every_region(regions, bufs, f, addr);
    let i = choose|i: int| 0 <= i < regions.len() && #[trigger] made_of(regions, bufs, f, addr, i);
    let b = bufs[i]->Some_0;
    let utf8 = vstd::utf8::encode_utf8(text);
    let utf16 = bytes::utf16_text(text);
    let first = bytes::pattern_hits(regions[i].addr, b, utf8);
    let second = bytes::pattern_hits(regions[i].addr, b, utf16);
    let all = first + second;
    let k = choose|k: int| 0 <= k < all.len() && all[k] == addr;
    let (pat, at) = if k < first.len() {
        (utf8, bytes::matches_from(b, utf8, 0)[k])
    } else {
        (utf16, bytes::matches_from(b, utf16, 0)[k - first.len()])
    };
    bytes::search_covers_matches(b, pat, 0);
    assert(stands_at(bufs, text, pat, i, at));
}

/// A match of one of a text's forms is among what the search makes of a region.
proof fn lemma_form_found(addr: usize, b: Seq<u8>, text: Seq<char>, pat: Seq<u8>, n: int)
    requires
        is_form(text, pat),
        0 <= n < bytes::matches_from(b, pat, 0).len(),
    ensures
        scan::text_in(text)(addr, b).contains(
            addr.wrapping_add(bytes::matches_from(b, pat, 0)[n] as usize),
        ),
{
    let hits = bytes::pattern_hits(addr, b, pat);
    let first = bytes::pattern_hits(addr, b, vstd::utf8::encode_utf8(text));
    let second = bytes::pattern_hits(addr, b, bytes::utf16_text(text));
    let all = first + second;
    if pat == vstd::utf8::encode_utf8(text) {
        assert(all[n] == hits[n]);
    } else {
        assert(all[first.len() + n] == hits[n]);
    }
}

/// Wherever a text stands in one of its forms, the search for it reports the address, or that of a
/// match which reaches there.
pub proof fn text_scan_is_complete(
    regions: Seq<Region>,
    bufs: Seq<Option<Seq<u8>>>,
    text: Seq<char>,
    pat: Seq<u8>,
    i: int,
    at: int,
)
    requires
        regions.len() == bufs.len(),
        stands_at(bufs, text, pat, i, at),
    ensures
        exists|m: int| #[trigger]
            stands_at(bufs, text, pat, i, m) && m <= at && at < m + pat.len() && scan::gathered(
                regions,
                bufs,
                scan::text_in(text),
            ).contains(regions[i].addr.wrapping_add(m as usize)),
{
    let f = scan::text_in(text);
    let b = bufs[i]->Some_0;
    let found = bytes::matches_from(b, pat, 0);
    bytes::search_covers_matches(b, pat, 0);
    assert(bytes::starts_within(found, pat, at));
    let n = choose|n: int| 0 <= n < found.len() && #[trigger] found[n] <= at && at < found[n]
        + pat.len();
    let m = found[n];
    let addr = regions[i].addr.wrapping_add(m as usize);
    lemma_form_found(regions[i].addr, b, text, pat, n);
    assert(made_of(regions, bufs, f, addr, i));
    scan_gathers_every_region(regions, bufs, f, addr);
    assert(stands_at(bufs, text, pat, i, m));
}

} // verus!
