//! What is found in one buffer, in plain bytes, and how what is found adds up.
use crate::bytes;
use crate::findings;
use crate::meaning;
use crate::pointers::Pointer;
use crate::region;
use crate::region::Region;
use crate::scan;
use crate::snapshot;
use crate::snapshot::Snapshot;
use crate::sort;
use vstd::prelude::*;

verus! {

/// The number that the eight bytes from `at` on hold, lowest byte first.
pub open spec fn word64(b: Seq<u8>, at: int) -> int {
    b[at] + 0x100 * b[at + 1] + 0x1_0000 * b[at + 2] + 0x100_0000 * b[at + 3] + 0x1_0000_0000
        * b[at + 4] + 0x100_0000_0000 * b[at + 5] + 0x1_0000_0000_0000 * b[at + 6]
        + 0x100_0000_0000_0000 * b[at + 7]
}

/// The number that the four bytes from `at` on hold, lowest byte first.
pub open spec fn word32(b: Seq<u8>, at: int) -> int {
    b[at] + 0x100 * b[at + 1] + 0x1_0000 * b[at + 2] + 0x100_0000 * b[at + 3]
}

/// The signed number that the eight bytes from `at` on hold, as two's complement has it.
pub open spec fn number64(b: Seq<u8>, at: int) -> int {
    if word64(b, at) < 0x8000_0000_0000_0000 {
        word64(b, at)
    } else {
        word64(b, at) - 0x1_0000_0000_0000_0000
    }
}

/// What is picked comes in the order of the indices that it is picked for.
proof fn lemma_picks_index<T>(n: int, f: spec_fn(int) -> Option<T>, i: int) -> (k: int)
    requires
        n >= 0,
        0 <= i < bytes::picks(n, f).len(),
    ensures
        0 <= k < n,
        f(k) == Some(bytes::picks(n, f)[i]),
        i < bytes::picks(k + 1, f).len(),
        i == bytes::picks(k, f).len(),
    decreases n,
{
    if n == 0 {
        bytes::picks_next(0, f);
        0
    } else {
        bytes::picks_next(n - 1, f);
        let part = bytes::picks(n - 1, f);
        if i < part.len() {
            assert(part[i] == bytes::picks(n, f)[i]);
            lemma_picks_index(n - 1, f, i)
        } else {
            n - 1
        }
    }
}

proof fn lemma_picks_grow<T>(a: int, b: int, f: spec_fn(int) -> Option<T>)
    requires
        0 <= a <= b,
    ensures
        bytes::picks(a, f).len() <= bytes::picks(b, f).len(),
    decreases b,
{
    if a < b {
        lemma_picks_grow(a, b - 1, f);
        bytes::picks_next(b - 1, f);
    }
}

/// Of two picks, the earlier was picked for the smaller index.
proof fn lemma_picks_order<T>(n: int, f: spec_fn(int) -> Option<T>, i: int, j: int) -> (k: (
    int,
    int,
))
    requires
        n >= 0,
        0 <= i < j < bytes::picks(n, f).len(),
    ensures
        0 <= k.0 < k.1 < n,
        f(k.0) == Some(bytes::picks(n, f)[i]),
        f(k.1) == Some(bytes::picks(n, f)[j]),
{
    let a = lemma_picks_index(n, f, i);
    let b = lemma_picks_index(n, f, j);
    if b <= a {
        lemma_picks_grow(b, a, f);
    }
    (a, b)
}

/// Where a buffer was read at `addr`, the scan for numbers finds the addresses of the aligned words
/// whose signed number is at most `tol` away from `target`, each once, in ascending order.
pub proof fn numbers_found_are_those_near(
    addr: usize,
    b: Seq<u8>,
    target: i64,
    tol: i64,
    x: usize,
    i: int,
    j: int,
)
    requires
        addr + b.len() <= usize::MAX,
    ensures
        scan::near_in(target, tol)(addr, b).contains(x) <==> exists|k: int|
            0 <= k && 8 * k + 8 <= b.len() && x == addr + 8 * k && -tol <= #[trigger] number64(
                b,
                8 * k,
            ) - target <= tol,
        0 <= i < j < scan::near_in(target, tol)(addr, b).len() ==> scan::near_in(target, tol)(
            addr,
            b,
        )[i] < scan::near_in(target, tol)(addr, b)[j],
{
    let n = b.len() as int / 8;
    let f = bytes::near_word(addr, b, target, tol);
    let hits = scan::near_in(target, tol)(addr, b);
    assert forall|k: int| 0 <= k < n implies #[trigger] f(k) == (if -tol <= number64(b, 8 * k)
        - target <= tol {
        Some((addr + 8 * k) as usize)
    } else {
        None
    }) by {
        meaning::words_stand_lowest_byte_first(b, 8 * k);
        let v = bytes::le_at(b, 8 * k, 8) as u64;
        meaning::near_words_are_no_further_than_the_tolerance(
            v,
            number64(b, 8 * k),
            target,
            tol,
        );
    }
    bytes::picks_are_what_f_gives(n, f, x);
    if hits.contains(x) {
        let k = choose|k: int| 0 <= k < n && #[trigger] f(k) == Some(x);
        assert(-tol <= number64(b, 8 * k) - target <= tol);
    }
    if exists|k: int|
        0 <= k && 8 * k + 8 <= b.len() && x == addr + 8 * k && -tol <= #[trigger] number64(b, 8 * k)
            - target <= tol {
        let k = choose|k: int|
            0 <= k && 8 * k + 8 <= b.len() && x == addr + 8 * k && -tol <= #[trigger] number64(
                b,
                8 * k,
            ) - target <= tol;
        assert(f(k) == Some(x));
    }
    if 0 <= i < j < hits.len() {
        let (p, q) = lemma_picks_order(n, f, i, j);
        assert(f(p) is Some && f(q) is Some);
    }
}

/// Where a buffer was read at `addr`, the pointers found in it are the aligned words whose number is
/// an address of some region, each with its own address, each once, in ascending order of that.
pub proof fn pointers_found_lead_into_a_region(
    regions: Seq<Region>,
    addr: usize,
    b: Seq<u8>,
    e: Pointer,
    i: int,
    j: int,
)
    requires
        addr + b.len() <= usize::MAX,
    ensures
        scan::pointers_in(regions)(addr, b).contains(e) <==> exists|k: int, m: int|
            #![trigger word64(b, 8 * k), regions[m]]
            {
                &&& 0 <= k && 8 * k + 8 <= b.len()
                &&& e.0 == word64(b, 8 * k)
                &&& e.1 == addr + 8 * k
                &&& 0 <= m < regions.len()
                &&& regions[m].addr <= e.0 as usize
                &&& (e.0 as usize) < regions[m].addr + regions[m].size
                &&& (e.0 as usize) < usize::MAX
            },
        0 <= i < j < scan::pointers_in(regions)(addr, b).len() ==> scan::pointers_in(regions)(
            addr,
            b,
        )[i].1 < scan::pointers_in(regions)(addr, b)[j].1,
{
    let n = b.len() as int / 8;
    let f = scan::pointer_word(regions, addr, b);
    let found = scan::pointers_in(regions)(addr, b);
    assert forall|k: int| 0 <= k < n implies #[trigger] f(k) == (if region::readable(
        regions,
        word64(b, 8 * k) as u64 as usize,
    ) {
        Some((word64(b, 8 * k) as u64, (addr + 8 * k) as usize))
    } else {
        None
    }) by {
        meaning::words_stand_lowest_byte_first(b, 8 * k);
    }
    assert forall|k: int| 0 <= k < n implies 0 <= #[trigger] word64(b, 8 * k) <= u64::MAX by {
        meaning::words_stand_lowest_byte_first(b, 8 * k);
    }
    meaning::readable_addresses_lie_in_a_region(regions, e.0 as usize);
    bytes::picks_are_what_f_gives(n, f, e);
    if found.contains(e) {
        let k = choose|k: int| 0 <= k < n && #[trigger] f(k) == Some(e);
        assert(0 <= word64(b, 8 * k) <= u64::MAX);
        let m = choose|m: int|
            0 <= m < regions.len() && (#[trigger] regions[m]).addr <= e.0 as usize && (
            e.0 as usize) < regions[m].addr + regions[m].size && (e.0 as usize) < usize::MAX;
        assert(e.0 == word64(b, 8 * k) && regions[m].addr <= e.0 as usize);
    }
    if exists|k: int, m: int|
        #![trigger word64(b, 8 * k), regions[m]]
        {
            &&& 0 <= k && 8 * k + 8 <= b.len()
            &&& e.0 == word64(b, 8 * k)
            &&& e.1 == addr + 8 * k
            &&& 0 <= m < regions.len()
            &&& regions[m].addr <= e.0 as usize
            &&& (e.0 as usize) < regions[m].addr + regions[m].size
            &&& (e.0 as usize) < usize::MAX
        } {
        let (k, m) = choose|k: int, m: int|
            #![trigger word64(b, 8 * k), regions[m]]
            {
                &&& 0 <= k && 8 * k + 8 <= b.len()
                &&& e.0 == word64(b, 8 * k)
                &&& e.1 == addr + 8 * k
                &&& 0 <= m < regions.len()
                &&& regions[m].addr <= e.0 as usize
                &&& (e.0 as usize) < regions[m].addr + regions[m].size
                &&& (e.0 as usize) < usize::MAX
            };
        assert(region::readable(regions, e.0 as usize));
        assert(f(k) == Some(e));
    }
    if 0 <= i < j < found.len() {
        let (p, q) = lemma_picks_order(n, f, i, j);
        assert(f(p) is Some && f(q) is Some);
    }
}

/// Where a buffer was read at `addr`, the words that a test keeps are those that it may hold of, in
/// ascending order; of each of the others it may fail.
pub proof fn words_kept_pass_the_test<F: Fn(u32) -> bool>(
    test: F,
    addr: usize,
    b: Seq<u8>,
    hits: Seq<usize>,
    i: int,
    j: int,
)
    requires
        addr + b.len() <= usize::MAX,
        bytes::may_keep(test, addr, b, hits),
    ensures
        forall|x: usize| #[trigger]
            hits.contains(x) ==> exists|k: int|
                0 <= k && 4 * k + 4 <= b.len() && x == addr + 4 * k && test.ensures(
                    (#[trigger] word32(b, 4 * k) as u32,),
                    true,
                ),
        forall|k: int|
            0 <= k && 4 * k + 4 <= b.len() ==> hits.contains((addr + 4 * k) as usize)
                || test.ensures((#[trigger] word32(b, 4 * k) as u32,), false),
        0 <= i < j < hits.len() ==> hits[i] < hits[j],
{
    let marks = choose|marks: Seq<bool>| #[trigger]
        bytes::may_mark(test, b, marks) && hits == bytes::picks(
            marks.len() as int,
            bytes::marked_word(addr, marks),
        );
    let f = bytes::marked_word(addr, marks);
    let n = marks.len() as int;
    assert forall|k: int| 0 <= k < n implies test.ensures(
        (#[trigger] word32(b, 4 * k) as u32,),
        marks[k],
    ) by {
        meaning::words_stand_lowest_byte_first(b, 4 * k);
        assert(test.ensures((bytes::le_at(b, 4 * k, 4) as u32,), marks[k]));
    }
    assert forall|x: usize| #[trigger] hits.contains(x) implies exists|k: int|
        0 <= k && 4 * k + 4 <= b.len() && x == addr + 4 * k && test.ensures(
            (#[trigger] word32(b, 4 * k) as u32,),
            true,
        ) by {
        bytes::picks_are_what_f_gives(n, f, x);
        let k = choose|k: int| 0 <= k < n && #[trigger] f(k) == Some(x);
        assert(marks[k]);
        assert(test.ensures((word32(b, 4 * k) as u32,), true));
    }
    assert forall|k: int| 0 <= k && 4 * k + 4 <= b.len() implies hits.contains(
        (addr + 4 * k) as usize,
    ) || test.ensures((#[trigger] word32(b, 4 * k) as u32,), false) by {
        let x = (addr + 4 * k) as usize;
        bytes::picks_are_what_f_gives(n, f, x);
        if marks[k] {
            assert(f(k) == Some(x));
        }
    }
    if 0 <= i < j < hits.len() {
        let (p, q) = lemma_picks_order(n, f, i, j);
        assert(f(p) is Some && f(q) is Some);
    }
}

/// `pat` stands in `b` from `at` on.
pub open spec fn occurs(b: Seq<u8>, pat: Seq<u8>, at: int) -> bool {
    0 <= at && at + pat.len() <= b.len() && b.subrange(at, at + pat.len()) == pat
}

/// Where a buffer was read at `addr`, `hits` are addresses at which `pat` occurs, in ascending
/// order; they do not overlap, and every occurrence starts within one of them.
pub open spec fn is_search(addr: usize, b: Seq<u8>, pat: Seq<u8>, hits: Seq<usize>) -> bool {
    &&& pat.len() == 0 ==> hits.len() == 0
    &&& forall|i: int| 0 <= i < hits.len() ==> occurs(b, pat, #[trigger] hits[i] - addr)
    &&& forall|i: int, j: int|
        #![trigger hits[i], hits[j]]
        0 <= i < j < hits.len() ==> hits[i] + pat.len() <= hits[j]
    &&& pat.len() > 0 ==> forall|at: int| #[trigger]
        occurs(b, pat, at) ==> exists|i: int|
            0 <= i < hits.len() && #[trigger] hits[i] <= addr + at && addr + at < hits[i]
                + pat.len()
}

proof fn lemma_search(addr: usize, b: Seq<u8>, pat: Seq<u8>)
    requires
        addr + b.len() <= usize::MAX,
    ensures
        is_search(addr, b, pat, bytes::pattern_hits(addr, b, pat)),
{
    let found = bytes::matches_from(b, pat, 0);
    let hits = bytes::pattern_hits(addr, b, pat);
    if pat.len() > 0 {
        bytes::search_covers_matches(b, pat, 0);
        assert forall|i: int| 0 <= i < hits.len() implies #[trigger] hits[i] == addr + found[i]
            && occurs(b, pat, hits[i] - addr) by {
            assert(bytes::matches_at(b, pat, found[i]));
        }
        assert forall|i: int, j: int|
            #![trigger hits[i], hits[j]]
            0 <= i < j < hits.len() implies hits[i] + pat.len() <= hits[j] by {
            assert(found[i] + pat.len() <= found[j]);
            assert(hits[i] == addr + found[i] && hits[j] == addr + found[j]);
        }
        assert forall|at: int| #[trigger] occurs(b, pat, at) implies exists|i: int|
            0 <= i < hits.len() && #[trigger] hits[i] <= addr + at && addr + at < hits[i]
                + pat.len() by {
            assert(bytes::matches_at(b, pat, at));
            assert(bytes::starts_within(found, pat, at));
            let i = choose|i: int| 0 <= i < found.len() && #[trigger] found[i] <= at && at
                < found[i] + pat.len();
            assert(hits[i] == addr + found[i]);
        }
    }
}

/// Units that stand for the same text are the same units.
proof fn lemma_decoded_once(a: Seq<int>, b: Seq<int>)
    requires
        meaning::decoded(a) is Some,
        meaning::decoded(a) == meaning::decoded(b),
        forall|i: int| 0 <= i < a.len() ==> 0 <= #[trigger] a[i] < 0x1_0000,
        forall|i: int| 0 <= i < b.len() ==> 0 <= #[trigger] b[i] < 0x1_0000,
    ensures
        a == b,
    decreases a.len(),
{
    let t = meaning::decoded(a)->Some_0;
    if a.len() == 0 {
        assert(b.len() == 0);
        assert(a =~= b);
    } else {
        assert(t.len() > 0);
        assert(b.len() > 0);
        let x = a.last();
        let y = b.last();
        assert(a[a.len() - 1] == x && b[b.len() - 1] == y);
        let one_a = !meaning::is_high(x) && !meaning::is_low(x);
        let one_b = !meaning::is_high(y) && !meaning::is_low(y);
        let a2 = if one_a {
            a.drop_last()
        } else {
            a.take(a.len() - 2)
        };
        let b2 = if one_b {
            b.drop_last()
        } else {
            b.take(b.len() - 2)
        };
        let ca: int = if one_a {
            x
        } else {
            0x1_0000 + 0x400 * (a[a.len() - 2] - 0xd800) + (x - 0xdc00)
        };
        let cb: int = if one_b {
            y
        } else {
            0x1_0000 + 0x400 * (b[b.len() - 2] - 0xd800) + (y - 0xdc00)
        };
        let ta = meaning::decoded(a2)->Some_0;
        let tb = meaning::decoded(b2)->Some_0;
        assert(t == ta.push(ca as u32 as char));
        assert(t == tb.push(cb as u32 as char));
        assert(t.last() == ca as u32 as char && t.last() == cb as u32 as char);
        assert(t.drop_last() =~= ta && t.drop_last() =~= tb);
        assert(ca == cb) by {
            assert(ca as u32 as char as u32 == ca);
            assert(cb as u32 as char as u32 == cb);
        }
        assert(one_a == one_b);
        lemma_decoded_once(a2, b2);
        if one_a {
            assert(a =~= a2.push(x));
            assert(b =~= b2.push(y));
        } else {
            assert(a =~= a2.push(a[a.len() - 2]).push(x));
            assert(b =~= b2.push(b[b.len() - 2]).push(y));
        }
    }
}

/// Where a buffer was read at `addr`, a text is searched for in its UTF-8 form, and then in its
/// UTF-16 form: bytes that, two to a unit and low byte first, stand for the text.
pub proof fn text_is_searched_for_in_both_forms(
    addr: usize,
    b: Seq<u8>,
    text: Seq<char>,
    utf16: Seq<u8>,
) -> (n: int)
    requires
        addr + b.len() <= usize::MAX,
        utf16.len() % 2 == 0,
        meaning::decoded(meaning::units(utf16)) == Some(text),
    ensures
        0 <= n <= scan::text_in(text)(addr, b).len(),
        is_search(
            addr,
            b,
            vstd::utf8::encode_utf8(text),
            scan::text_in(text)(addr, b).take(n),
        ),
        is_search(addr, b, utf16, scan::text_in(text)(addr, b).skip(n)),
{
    let own = bytes::utf16_text(text);
    meaning::utf16_reads_back(text);
    lemma_decoded_once(meaning::units(own), meaning::units(utf16));
    assert(own =~= utf16) by {
        assert(meaning::units(own).len() == meaning::units(utf16).len());
        assert forall|i: int| 0 <= i < own.len() implies own[i] == utf16[i] by {
            assert(meaning::units(own)[i / 2] == meaning::units(utf16)[i / 2]);
        }
    }
    lemma_search(addr, b, vstd::utf8::encode_utf8(text));
    lemma_search(addr, b, own);
    let first = bytes::pattern_hits(addr, b, vstd::utf8::encode_utf8(text));
    let second = bytes::pattern_hits(addr, b, own);
    let all = scan::text_in(text)(addr, b);
    assert(all.take(first.len() as int) =~= first);
    assert(all.skip(first.len() as int) =~= second);
    first.len() as int
}

/// What is made of regions adds up: of none nothing, of one what is made of its bytes at its
/// address, or nothing where it could not be read, and of more what is made of each in turn.
pub proof fn scans_add_up<T>(
    regions: Seq<Region>,
    bufs: Seq<Option<Seq<u8>>>,
    f: spec_fn(usize, Seq<u8>) -> Seq<T>,
    r: Region,
    b: Seq<u8>,
)
    requires
        regions.len() == bufs.len(),
    ensures
        scan::gathered(Seq::<Region>::empty(), Seq::empty(), f) == Seq::<T>::empty(),
        scan::gathered(regions.push(r), bufs.push(Some(b)), f) == scan::gathered(regions, bufs, f)
            + f(r.addr, b),
        scan::gathered(regions.push(r), bufs.push(None), f) == scan::gathered(regions, bufs, f),
{
    assert(regions.push(r).drop_last() =~= regions);
    assert(bufs.push(Some(b)).drop_last() =~= bufs);
    assert(bufs.push(None::<Seq<u8>>).drop_last() =~= bufs);
    assert(scan::gathered(regions, bufs, f) + Seq::<T>::empty() =~= scan::gathered(
        regions,
        bufs,
        f,
    ));
}

/// The parts of a scan follow each other, and a snapshot keeps a region's address and bytes.
pub proof fn parts_follow_each_other(
    parts: Seq<Seq<usize>>,
    part: Seq<usize>,
    addr: usize,
    b: Seq<u8>,
)
    ensures
        scan::concatenated(Seq::empty()) == Seq::<usize>::empty(),
        scan::concatenated(parts.push(part)) == scan::concatenated(parts) + part,
        scan::whole()(addr, b) == seq![(addr, b)],
{
    assert(parts.push(part).drop_last() =~= parts);
}

/// A snapshot holds of an address the bytes of the last region there is at it, and nothing where
/// there is none.
pub proof fn snapshots_hold_the_last_region(s: Snapshot, addr: usize, i: int)
    ensures
        (forall|k: int| 0 <= k < s.len() ==> (#[trigger] s[k]).0 != addr) ==> snapshot::bytes_at(
            s,
            addr,
        ) is None,
        0 <= i < s.len() && s[i].0 == addr && (forall|k: int|
            i < k < s.len() ==> (#[trigger] s[k]).0 != addr) ==> snapshot::bytes_at(s, addr)
            == Some(s[i].1),
    decreases s.len(),
{
    if s.len() > 0 {
        let init = s.drop_last();
        snapshots_hold_the_last_region(init, addr, i);
        assert(s[s.len() - 1] == s.last());
        assert(forall|k: int| 0 <= k < init.len() ==> init[k] == s[k]);
        if s.last().0 != addr {
            if forall|k: int| 0 <= k < s.len() ==> (#[trigger] s[k]).0 != addr {
                assert forall|k: int| 0 <= k < init.len() implies (#[trigger] init[k]).0 != addr by {
                    assert(s[k].0 != addr);
                }
            }
            if 0 <= i < s.len() && s[i].0 == addr && (forall|k: int|
                i < k < s.len() ==> (#[trigger] s[k]).0 != addr) {
                assert forall|k: int| i < k < init.len() implies (#[trigger] init[k]).0 != addr by {
                    assert(s[k].0 != addr);
                }
            }
        } else if i < s.len() - 1 {
            assert(s[s.len() - 1].0 == addr);
        }
    }
}

/// The byte diff adds up region by region of `a`. Of one region, of which `b` holds the bytes `is`,
/// it reports the addresses whose byte was `want_a` and is `want_b`, in ascending order.
pub proof fn diffs_add_up(
    a: Snapshot,
    b: Snapshot,
    e: (usize, Seq<u8>),
    is: Seq<u8>,
    want_a: u8,
    want_b: u8,
    x: usize,
    i: int,
    j: int,
) -> (part: Seq<usize>)
    requires
        e.0 + e.1.len() <= usize::MAX,
    ensures
        snapshot::changes(Seq::empty(), b, want_a, want_b) == Seq::<usize>::empty(),
        snapshot::bytes_at(b, e.0) is None ==> snapshot::changes(a.push(e), b, want_a, want_b)
            == snapshot::changes(a, b, want_a, want_b),
        snapshot::bytes_at(b, e.0) == Some(is) ==> {
            &&& snapshot::changes(a.push(e), b, want_a, want_b) == snapshot::changes(
                a,
                b,
                want_a,
                want_b,
            ) + part
            &&& part.contains(x) <==> exists|k: int|
                0 <= k < e.1.len() && k < is.len() && #[trigger] e.1[k] == want_a && is[k] == want_b
                    && x == e.0 + k
            &&& 0 <= i < j < part.len() ==> part[i] < part[j]
        },
{
    assert(a.push(e).drop_last() =~= a);
    let before = snapshot::changes(a, b, want_a, want_b);
    assert(before + Seq::<usize>::empty() =~= before);
    let n = if e.1.len() < is.len() {
        e.1.len() as int
    } else {
        is.len() as int
    };
    let f = snapshot::changed_byte(e.0, e.1, is, want_a, want_b);
    let part = snapshot::changed_bytes(e.0, e.1, is, want_a, want_b);
    bytes::picks_are_what_f_gives(n, f, x);
    if part.contains(x) {
        let k = choose|k: int| 0 <= k < n && #[trigger] f(k) == Some(x);
        assert(e.1[k] == want_a && is[k] == want_b);
    }
    if exists|k: int|
        0 <= k < e.1.len() && k < is.len() && #[trigger] e.1[k] == want_a && is[k] == want_b && x
            == e.0 + k {
        let k = choose|k: int|
            0 <= k < e.1.len() && k < is.len() && #[trigger] e.1[k] == want_a && is[k] == want_b
                && x == e.0 + k;
        assert(f(k) == Some(x));
    }
    if 0 <= i < j < part.len() {
        let (p, q) = lemma_picks_order(n, f, i, j);
        assert(f(p) is Some && f(q) is Some);
    }
    part
}

/// The plain data of a snapshot are the addresses and bytes of its entries, in their order.
pub proof fn snapshots_keep_their_entries(s: Seq<(usize, Vec<u8>)>, i: int)
    ensures
        snapshot::snapshot_of(s).len() == s.len(),
        0 <= i < s.len() ==> snapshot::snapshot_of(s)[i] == (s[i].0, s[i].1@),
{
}

/// Addresses, moved by `by`; past the last address it goes on at zero.
pub open spec fn moved(by: usize, s: Seq<usize>) -> Seq<usize> {
    Seq::new(s.len(), |i: int| by.wrapping_add(s[i]))
}

/// Pointers, their locations moved by `by`.
pub open spec fn relocated(by: usize, s: Seq<Pointer>) -> Seq<Pointer> {
    Seq::new(s.len(), |i: int| (s[i].0, by.wrapping_add(s[i].1)))
}

proof fn lemma_picks_moved(
    n: int,
    by: usize,
    f: spec_fn(int) -> Option<usize>,
    g: spec_fn(int) -> Option<usize>,
)
    requires
        n >= 0,
        forall|k: int|
            0 <= k < n ==> g(k) is Some == f(k) is Some && (f(k) is Some ==> #[trigger] g(k) == Some(
                by.wrapping_add(f(k)->Some_0),
            )),
    ensures
        bytes::picks(n, g) == moved(by, bytes::picks(n, f)),
    decreases n,
{
    if n == 0 {
        bytes::picks_next(0, f);
        bytes::picks_next(0, g);
    } else {
        lemma_picks_moved(n - 1, by, f, g);
        bytes::picks_next(n - 1, f);
        bytes::picks_next(n - 1, g);
        assert(g(n - 1) is Some == f(n - 1) is Some);
    }
    assert(bytes::picks(n, g) =~= moved(by, bytes::picks(n, f)));
}

proof fn lemma_picks_relocated(
    n: int,
    by: usize,
    f: spec_fn(int) -> Option<Pointer>,
    g: spec_fn(int) -> Option<Pointer>,
)
    requires
        n >= 0,
        forall|k: int|
            0 <= k < n ==> g(k) is Some == f(k) is Some && (f(k) is Some ==> #[trigger] g(k) == Some(
                (f(k)->Some_0.0, by.wrapping_add(f(k)->Some_0.1)),
            )),
    ensures
        bytes::picks(n, g) == relocated(by, bytes::picks(n, f)),
    decreases n,
{
    if n == 0 {
        bytes::picks_next(0, f);
        bytes::picks_next(0, g);
    } else {
        lemma_picks_relocated(n - 1, by, f, g);
        bytes::picks_next(n - 1, f);
        bytes::picks_next(n - 1, g);
        assert(g(n - 1) is Some == f(n - 1) is Some);
    }
    assert(bytes::picks(n, g) =~= relocated(by, bytes::picks(n, f)));
}

/// What a scan finds does not depend on where the buffer was read: at `addr` it is what is found at
/// zero, moved there.
pub proof fn finds_move_with_the_buffer(
    regions: Seq<Region>,
    addr: usize,
    b: Seq<u8>,
    target: i64,
    tol: i64,
    text: Seq<char>,
)
    requires
        b.len() <= usize::MAX,
    ensures
        scan::near_in(target, tol)(addr, b) == moved(addr, scan::near_in(target, tol)(0, b)),
        scan::text_in(text)(addr, b) == moved(addr, scan::text_in(text)(0, b)),
        scan::pointers_in(regions)(addr, b) == relocated(addr, scan::pointers_in(regions)(0, b)),
{
    let n = b.len() as int / 8;
    lemma_picks_moved(
        n,
        addr,
        bytes::near_word(0, b, target, tol),
        bytes::near_word(addr, b, target, tol),
    );
    lemma_picks_relocated(
        n,
        addr,
        scan::pointer_word(regions, 0, b),
        scan::pointer_word(regions, addr, b),
    );
    lemma_hits_moved(addr, b, vstd::utf8::encode_utf8(text));
    lemma_hits_moved(addr, b, bytes::utf16_text(text));
    assert(scan::text_in(text)(addr, b) =~= moved(addr, scan::text_in(text)(0, b)));
}

proof fn lemma_hits_moved(addr: usize, b: Seq<u8>, pat: Seq<u8>)
    requires
        b.len() <= usize::MAX,
    ensures
        bytes::pattern_hits(addr, b, pat) == moved(addr, bytes::pattern_hits(0, b, pat)),
{
    assert(bytes::pattern_hits(addr, b, pat) =~= moved(addr, bytes::pattern_hits(0, b, pat)));
}

/// The words that a test keeps do not depend on where the buffer was read either.
pub proof fn kept_words_move_with_the_buffer<F: Fn(u32) -> bool>(
    test: F,
    addr: usize,
    b: Seq<u8>,
    hits: Seq<usize>,
) -> (at_zero: Seq<usize>)
    requires
        b.len() <= usize::MAX,
        bytes::may_keep(test, addr, b, hits),
    ensures
        bytes::may_keep(test, 0, b, at_zero),
        hits == moved(addr, at_zero),
{
    let marks = choose|marks: Seq<bool>| #[trigger]
        bytes::may_mark(test, b, marks) && hits == bytes::picks(
            marks.len() as int,
            bytes::marked_word(addr, marks),
        );
    lemma_picks_moved(
        marks.len() as int,
        addr,
        bytes::marked_word(0, marks),
        bytes::marked_word(addr, marks),
    );
    bytes::picks(marks.len() as int, bytes::marked_word(0, marks))
}

/// Nor do the changes within one region.
pub proof fn changes_move_with_the_region(
    b: Snapshot,
    addr: usize,
    was: Seq<u8>,
    is: Seq<u8>,
    want_a: u8,
    want_b: u8,
)
    requires
        was.len() <= usize::MAX,
        snapshot::bytes_at(b, addr) == Some(is),
    ensures
        snapshot::changes(seq![(addr, was)], b, want_a, want_b) == moved(
            addr,
            snapshot::changes(seq![(0usize, was)], seq![(0usize, is)], want_a, want_b),
        ),
{
    let n = if was.len() < is.len() {
        was.len() as int
    } else {
        is.len() as int
    };
    lemma_picks_moved(
        n,
        addr,
        snapshot::changed_byte(0, was, is, want_a, want_b),
        snapshot::changed_byte(addr, was, is, want_a, want_b),
    );
    let none: Snapshot = Seq::empty();
    let there: Snapshot = seq![(addr, was)];
    let zero: Snapshot = seq![(0usize, was)];
    let now: Snapshot = seq![(0usize, is)];
    assert(there.drop_last() =~= none && zero.drop_last() =~= none);
    assert(there.last() == (addr, was) && zero.last() == (0usize, was));
    snapshots_hold_the_last_region(now, 0, 0);
    assert(snapshot::changes(none, b, want_a, want_b) =~= Seq::empty());
    assert(snapshot::changes(none, now, want_a, want_b) =~= Seq::empty());
    assert(snapshot::changes(there, b, want_a, want_b) =~= snapshot::changed_bytes(
        addr,
        was,
        is,
        want_a,
        want_b,
    ));
    assert(snapshot::changes(zero, now, want_a, want_b) =~= snapshot::changed_bytes(
        0,
        was,
        is,
        want_a,
        want_b,
    ));
}

/// The scan for numbers finds the aligned words of the regions that could be read whose signed
/// number is at most `tol` away from `target`, by their addresses.
pub proof fn number_scan_finds_what_is_near(
    regions: Seq<Region>,
    bufs: Seq<Option<Seq<u8>>>,
    target: i64,
    tol: i64,
    x: usize,
)
    requires
        regions.len() == bufs.len(),
    ensures
        scan::gathered(regions, bufs, scan::near_in(target, tol)).contains(x) <==> exists|
            i: int,
            k: int,
        |
            #![trigger number64(bufs[i]->Some_0, 8 * k)]
            {
                &&& 0 <= i < bufs.len() && bufs[i] is Some
                &&& 0 <= k && 8 * k + 8 <= bufs[i]->Some_0.len()
                &&& -tol <= number64(bufs[i]->Some_0, 8 * k) - target <= tol
                &&& x == regions[i].addr.wrapping_add((8 * k) as usize)
            },
{
    findings::near_scan_is_exact(regions, bufs, target, tol, x);
    assert forall|i: int, k: int| #[trigger] findings::has_word(bufs, i, k) implies bytes::within(
        findings::word(bufs, i, k),
        target,
        tol,
    ) == (-tol <= number64(bufs[i]->Some_0, 8 * k) - target <= tol) by {
        let b = bufs[i]->Some_0;
        meaning::words_stand_lowest_byte_first(b, 8 * k);
        meaning::near_words_are_no_further_than_the_tolerance(
            findings::word(bufs, i, k),
            number64(b, 8 * k),
            target,
            tol,
        );
    }
    if scan::gathered(regions, bufs, scan::near_in(target, tol)).contains(x) {
        let (i, k) = choose|i: int, k: int|
            #![trigger findings::word(bufs, i, k)]
            findings::has_word(bufs, i, k) && bytes::within(
                findings::word(bufs, i, k),
                target,
                tol,
            ) && x == findings::word_addr(regions, i, k);
        assert(-tol <= number64(bufs[i]->Some_0, 8 * k) - target <= tol);
    }
    if exists|i: int, k: int|
        #![trigger number64(bufs[i]->Some_0, 8 * k)]
        {
            &&& 0 <= i < bufs.len() && bufs[i] is Some
            &&& 0 <= k && 8 * k + 8 <= bufs[i]->Some_0.len()
            &&& -tol <= number64(bufs[i]->Some_0, 8 * k) - target <= tol
            &&& x == regions[i].addr.wrapping_add((8 * k) as usize)
        } {
        let (i, k) = choose|i: int, k: int|
            #![trigger number64(bufs[i]->Some_0, 8 * k)]
            {
                &&& 0 <= i < bufs.len() && bufs[i] is Some
                &&& 0 <= k && 8 * k + 8 <= bufs[i]->Some_0.len()
                &&& -tol <= number64(bufs[i]->Some_0, 8 * k) - target <= tol
                &&& x == regions[i].addr.wrapping_add((8 * k) as usize)
            };
        assert(findings::has_word(bufs, i, k));
        assert(bytes::within(findings::word(bufs, i, k), target, tol));
    }
}

/// The pointer map holds the aligned words of the regions that could be read whose number is an
/// address of some readable region, each with its own address.
pub proof fn pointer_map_holds_what_leads_into_a_region(
    readable: Seq<Region>,
    regions: Seq<Region>,
    bufs: Seq<Option<Seq<u8>>>,
    map: Seq<Pointer>,
    e: Pointer,
)
    requires
        regions.len() == bufs.len(),
        sort::stable_sort_of(
            scan::gathered(regions, bufs, scan::pointers_in(readable)),
            map,
            sort::own_rank(),
        ),
    ensures
        map.contains(e) <==> exists|i: int, k: int, m: int|
            #![trigger word64(bufs[i]->Some_0, 8 * k), readable[m]]
            {
                &&& 0 <= i < bufs.len() && bufs[i] is Some
                &&& 0 <= k && 8 * k + 8 <= bufs[i]->Some_0.len()
                &&& e.0 == word64(bufs[i]->Some_0, 8 * k)
                &&& e.1 == regions[i].addr.wrapping_add((8 * k) as usize)
                &&& 0 <= m < readable.len()
                &&& readable[m].addr <= e.0 as usize
                &&& (e.0 as usize) < readable[m].addr + readable[m].size
                &&& (e.0 as usize) < usize::MAX
            },
{
    findings::pointer_map_is_exact(readable, regions, bufs, map, e);
    meaning::readable_addresses_lie_in_a_region(readable, e.0 as usize);
    assert forall|i: int, k: int| #[trigger] findings::has_word(bufs, i, k) implies findings::word(
        bufs,
        i,
        k,
    ) == word64(bufs[i]->Some_0, 8 * k) by {
        meaning::words_stand_lowest_byte_first(bufs[i]->Some_0, 8 * k);
    }
    if map.contains(e) {
        let (i, k) = choose|i: int, k: int|
            #![trigger findings::word(bufs, i, k)]
            findings::has_word(bufs, i, k) && region::readable(
                readable,
                findings::word(bufs, i, k) as usize,
            ) && e == (findings::word(bufs, i, k), findings::word_addr(regions, i, k));
        let m = choose|m: int|
            0 <= m < readable.len() && (#[trigger] readable[m]).addr <= e.0 as usize && (
            e.0 as usize) < readable[m].addr + readable[m].size && (e.0 as usize) < usize::MAX;
        assert(e.0 == word64(bufs[i]->Some_0, 8 * k) && readable[m].addr <= e.0 as usize);
    }
    if exists|i: int, k: int, m: int|
        #![trigger word64(bufs[i]->Some_0, 8 * k), readable[m]]
        {
            &&& 0 <= i < bufs.len() && bufs[i] is Some
            &&& 0 <= k && 8 * k + 8 <= bufs[i]->Some_0.len()
            &&& e.0 == word64(bufs[i]->Some_0, 8 * k)
            &&& e.1 == regions[i].addr.wrapping_add((8 * k) as usize)
            &&& 0 <= m < readable.len()
            &&& readable[m].addr <= e.0 as usize
            &&& (e.0 as usize) < readable[m].addr + readable[m].size
            &&& (e.0 as usize) < usize::MAX
        } {
        let (i, k, m) = choose|i: int, k: int, m: int|
            #![trigger word64(bufs[i]->Some_0, 8 * k), readable[m]]
            {
                &&& 0 <= i < bufs.len() && bufs[i] is Some
                &&& 0 <= k && 8 * k + 8 <= bufs[i]->Some_0.len()
                &&& e.0 == word64(bufs[i]->Some_0, 8 * k)
                &&& e.1 == regions[i].addr.wrapping_add((8 * k) as usize)
                &&& 0 <= m < readable.len()
                &&& readable[m].addr <= e.0 as usize
                &&& (e.0 as usize) < readable[m].addr + readable[m].size
                &&& (e.0 as usize) < usize::MAX
            };
        assert(findings::has_word(bufs, i, k));
        assert(findings::word(bufs, i, k) == e.0);
        assert(region::readable(readable, e.0 as usize));
        assert(e == (findings::word(bufs, i, k), findings::word_addr(regions, i, k)));
    }
}

/// The byte diff goes region by region of `a`, each on its own.
pub proof fn diffs_go_region_by_region(
    a: Snapshot,
    b: Snapshot,
    e: (usize, Seq<u8>),
    want_a: u8,
    want_b: u8,
)
    ensures
        snapshot::changes(a.push(e), b, want_a, want_b) == snapshot::changes(a, b, want_a, want_b)
            + snapshot::changes(seq![e], b, want_a, want_b),
{
    let one: Snapshot = seq![e];
    let none: Snapshot = Seq::empty();
    assert(a.push(e).drop_last() =~= a);
    assert(one.drop_last() =~= none);
    assert(one.last() == e);
    assert(snapshot::changes(none, b, want_a, want_b) =~= Seq::empty());
    assert(snapshot::changes(a.push(e), b, want_a, want_b) =~= snapshot::changes(
        a,
        b,
        want_a,
        want_b,
    ) + snapshot::changes(one, b, want_a, want_b));
}

} // verus!
