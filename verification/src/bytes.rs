//! Reading integers, text and patterns out of raw bytes.
use crate::meaning;
use vstd::prelude::*;

verus! {

/// The number that bytes hold, lowest byte first.
pub open spec fn le_value(s: Seq<u8>) -> nat
    decreases s.len(),
{
    if s.len() == 0 {
        0
    } else {
        s[0] as nat + 256 * le_value(s.subrange(1, s.len() as int))
    }
}

/// The number that the `n` bytes of `s` from `at` on hold.
pub open spec fn le_at(s: Seq<u8>, at: int, n: int) -> nat {
    le_value(s.subrange(at, at + n))
}

/// One past the largest number that `n` bytes hold.
spec fn le_limit(n: nat) -> nat
    decreases n,
{
    if n == 0 {
        1
    } else {
        256 * le_limit((n - 1) as nat)
    }
}

proof fn lemma_le_value_bound(s: Seq<u8>)
    ensures
        le_value(s) < le_limit(s.len()),
    decreases s.len(),
{
    if s.len() > 0 {
        lemma_le_value_bound(s.subrange(1, s.len() as int));
    }
}

/// What four and eight bytes hold fits the integers of that size.
pub proof fn le_value_fits(s: Seq<u8>)
    ensures
        s.len() <= 4 ==> le_value(s) <= u32::MAX,
        s.len() <= 8 ==> le_value(s) <= u64::MAX,
{
    lemma_le_value_bound(s);
    reveal_with_fuel(le_limit, 9);
}

/// Reads `n` bytes at `at` as an integer, lowest byte first.
pub fn le_word(buf: &[u8], at: usize, n: usize) -> (v: u64)
    requires
        n <= 8,
        at + n <= buf@.len(),
    ensures
        v == le_at(buf@, at as int, n as int),
{
    let mut v: u64 = 0;
    let mut k: usize = n;
    let len = buf.len();
    assert(buf@.subrange(at + n, at + n) =~= Seq::empty());
    while k > 0
        invariant
            k <= n <= 8,
            at + n <= len == buf@.len(),
            v == le_at(buf@, at + k, n - k),
        decreases k,
    {
        k = k - 1;
        let ghost s = buf@.subrange(at + k, at + n);
        proof {
            assert(s.subrange(1, s.len() as int) =~= buf@.subrange(at + k + 1, at + n));
            le_value_fits(s);
        }
        v = v * 256 + buf[at + k] as u64;
    }
    v
}

/// The number that a word holds when its top bit is a sign.
pub open spec fn signed(v: u64) -> int {
    if v < 0x8000_0000_0000_0000 {
        v as int
    } else {
        v - 0x1_0000_0000_0000_0000
    }
}

/// `v`, as a signed number, is at most `tol` away from `target`.
pub open spec fn within(v: u64, target: i64, tol: i64) -> bool {
    -tol <= signed(v) - target <= tol
}

/// Whether a word, as a signed number, is at most `tol` away from `target`.
pub fn is_within(v: u64, target: i64, tol: i64) -> (yes: bool)
    ensures
        yes == within(v, target, tol),
        v < 0x8000_0000_0000_0000 ==> yes == (-tol <= v - target <= tol),
        v >= 0x8000_0000_0000_0000 ==> yes == (-tol <= v - 0x1_0000_0000_0000_0000 - target
            <= tol),
{
    let value: i128 = if v < 0x8000_0000_0000_0000 {
        v as i128
    } else {
        v as i128 - 0x1_0000_0000_0000_0000
    };
    let distance: i128 = value - target as i128;
    -(tol as i128) <= distance && distance <= tol as i128
}

/// What `f` gives for `0`, `1`, .., `n - 1`, without the `None`s.
pub open spec fn picks<T>(n: int, f: spec_fn(int) -> Option<T>) -> Seq<T> {
    Seq::new(n as nat, |k: int| k).filter_map(f)
}

/// One more index adds what `f` gives for it.
pub proof fn picks_next<T>(n: int, f: spec_fn(int) -> Option<T>)
    requires
        n >= 0,
    ensures
        picks(0, f) == Seq::<T>::empty(),
        picks(n + 1, f) == picks(n, f) + (match f(n) {
            Some(x) => seq![x],
            None => Seq::empty(),
        }),
{
    let s = Seq::new((n + 1) as nat, |k: int| k);
    assert(s.drop_last() =~= Seq::new(n as nat, |k: int| k));
    assert(s.last() == n);
    assert(picks(n, f) + Seq::empty() =~= picks(n, f));
    assert(picks(0, f) =~= Seq::<T>::empty());
}

/// A value is picked exactly where `f` gives it for some index.
pub proof fn picks_are_what_f_gives<T>(n: int, f: spec_fn(int) -> Option<T>, x: T)
    requires
        n >= 0,
    ensures
        picks(n, f).contains(x) <==> exists|k: int| 0 <= k < n && #[trigger] f(k) == Some(x),
    decreases n,
{
    if n == 0 {
        picks_next(0, f);
    } else {
        picks_are_what_f_gives(n - 1, f, x);
        picks_next(n - 1, f);
        let all = picks(n, f);
        let some = picks(n - 1, f);
        if all.contains(x) {
            let i = choose|i: int| 0 <= i < all.len() && all[i] == x;
            if i < some.len() {
                assert(some[i] == x);
                assert(some.contains(x));
            } else {
                assert(f(n - 1) == Some(x));
            }
        }
        if exists|k: int| 0 <= k < n && #[trigger] f(k) == Some(x) {
            let k = choose|k: int| 0 <= k < n && #[trigger] f(k) == Some(x);
            if k < n - 1 {
                let i = choose|i: int| 0 <= i < some.len() && some[i] == x;
                assert(all[i] == x);
            } else {
                assert(all[all.len() - 1] == x);
            }
        }
    }
}

/// The address of the `k`-th eight-byte word of a buffer, if the word is near `target`.
pub open spec fn near_word(addr: usize, buf: Seq<u8>, target: i64, tol: i64) -> spec_fn(
    int,
) -> Option<usize> {
    |k: int|
        if within(le_at(buf, 8 * k, 8) as u64, target, tol) {
            Some(addr.wrapping_add((8 * k) as usize))
        } else {
            None
        }
}

/// The addresses of the eight-byte words near `target` in a buffer read at `addr`.
pub open spec fn near_words(addr: usize, buf: Seq<u8>, target: i64, tol: i64) -> Seq<usize> {
    picks(buf.len() as int / 8, near_word(addr, buf, target, tol))
}

/// Adds to `hits` the addresses of the eight-byte words near `target` in a buffer read at `addr`.
pub fn push_near_words(addr: usize, buf: &Vec<u8>, target: i64, tol: i64, hits: &mut Vec<usize>)
    ensures
        final(hits)@ == old(hits)@ + near_words(addr, buf@, target, tol),
{
    let ghost f = near_word(addr, buf@, target, tol);
    let mut k: usize = 0;
    let len = buf.len();
    let n = len / 8;
    proof {
        picks_next(0, f);
        assert(hits@ =~= old(hits)@ + picks(0, f));
    }
    while k < n
        invariant
            k <= n,
            n == len / 8,
            len == buf@.len(),
            f == near_word(addr, buf@, target, tol),
            hits@ == old(hits)@ + picks(k as int, f),
        decreases n - k,
    {
        let ghost before = hits@;
        let v = le_word(buf.as_slice(), 8 * k, 8);
        if is_within(v, target, tol) {
            hits.push(addr.wrapping_add(8 * k));
        }
        proof {
            picks_next(k as int, f);
            assert(hits@ =~= old(hits)@ + picks(k + 1, f));
        }
        k = k + 1;
    }
}

/// The address of the `k`-th four-byte word of a buffer read at `addr`, if it is marked.
pub open spec fn marked_word(addr: usize, marks: Seq<bool>) -> spec_fn(int) -> Option<usize> {
    |k: int|
        if marks[k] {
            Some(addr.wrapping_add((4 * k) as usize))
        } else {
            None
        }
}

/// `marks` are answers that `test` may give for the four-byte words of a buffer, in order.
pub open spec fn may_mark<F: Fn(u32) -> bool>(test: F, buf: Seq<u8>, marks: Seq<bool>) -> bool {
    &&& marks.len() == buf.len() / 4
    &&& forall|k: int|
        0 <= k < marks.len() ==> test.ensures(
            (le_at(buf, 4 * k, 4) as u32,),
            #[trigger] marks[k],
        )
}

/// `hits` are the addresses of the four-byte words of a buffer read at `addr` that `test` may hold
/// of.
pub open spec fn may_keep<F: Fn(u32) -> bool>(
    test: F,
    addr: usize,
    buf: Seq<u8>,
    hits: Seq<usize>,
) -> bool {
    exists|marks: Seq<bool>| #[trigger]
        may_mark(test, buf, marks) && hits == picks(marks.len() as int, marked_word(addr, marks))
}

/// The addresses of the four-byte words of a buffer read at `addr` that `test` holds of.
pub fn kept_words<F: Fn(u32) -> bool>(addr: usize, buf: &Vec<u8>, test: &F) -> (hits: Vec<usize>)
    requires
        forall|w: u32| #[trigger] test.requires((w,)),
    ensures
        may_keep(*test, addr, buf@, hits@),
{
    let mut hits: Vec<usize> = Vec::new();
    let ghost mut marks: Seq<bool> = Seq::empty();
    let mut k: usize = 0;
    let len = buf.len();
    let n = len / 4;
    proof {
        picks_next(0, marked_word(addr, marks));
    }
    while k < n
        invariant
            k <= n,
            n == len / 4,
            len == buf@.len(),
            marks.len() == k,
            hits@ == picks(k as int, marked_word(addr, marks)),
            forall|w: u32| #[trigger] test.requires((w,)),
            forall|j: int|
                0 <= j < marks.len() ==> test.ensures(
                    (le_at(buf@, 4 * j, 4) as u32,),
                    #[trigger] marks[j],
                ),
        decreases n - k,
    {
        let w = le_word(buf.as_slice(), 4 * k, 4);
        let yes = test(w as u32);
        if yes {
            hits.push(addr.wrapping_add(4 * k));
        }
        proof {
            let more = marks.push(yes);
            picks_next(k as int, marked_word(addr, more));
            lemma_picks_same(k as int, marked_word(addr, marks), marked_word(addr, more));
            assert(hits@ =~= picks(k + 1, marked_word(addr, more)));
            marks = more;
        }
        k = k + 1;
    }
    assert(may_mark(*test, buf@, marks));
    hits
}

/// Functions that agree below `n` pick the same.
proof fn lemma_picks_same<T>(n: int, f: spec_fn(int) -> Option<T>, g: spec_fn(int) -> Option<T>)
    requires
        n >= 0,
        forall|k: int| 0 <= k < n ==> #[trigger] f(k) == g(k),
    ensures
        picks(n, f) == picks(n, g),
    decreases n,
{
    if n == 0 {
        picks_next(0, f);
        picks_next(0, g);
    } else {
        lemma_picks_same(n - 1, f, g);
        picks_next(n - 1, f);
        picks_next(n - 1, g);
        assert(f(n - 1) == g(n - 1));
    }
}

/// `pat` stands in `buf` at `at`.
pub open spec fn matches_at(buf: Seq<u8>, pat: Seq<u8>, at: int) -> bool {
    at + pat.len() <= buf.len() && buf.subrange(at, at + pat.len()) == pat
}

/// Where `pat` stands in `buf` from `at` on, the search going on behind each match.
pub open spec fn matches_from(buf: Seq<u8>, pat: Seq<u8>, at: int) -> Seq<int>
    decreases buf.len() - at,
{
    if pat.len() == 0 || at + pat.len() > buf.len() {
        Seq::empty()
    } else if matches_at(buf, pat, at) {
        seq![at] + matches_from(buf, pat, at + pat.len())
    } else {
        matches_from(buf, pat, at + 1)
    }
}

/// `found` are matches of `pat` in `buf` from `at` on, none of which overlap, and every match from
/// `at` on starts within one of them.
pub open spec fn covers_matches(buf: Seq<u8>, pat: Seq<u8>, at: int, found: Seq<int>) -> bool {
    &&& forall|i: int|
        0 <= i < found.len() ==> at <= #[trigger] found[i] && matches_at(buf, pat, found[i])
    &&& forall|i: int, j: int|
        #![trigger found[i], found[j]]
        0 <= i < j < found.len() ==> found[i] + pat.len() <= found[j]
    &&& forall|p: int| at <= p && #[trigger] matches_at(buf, pat, p) ==> starts_within(found, pat, p)
}

/// `p` lies within one of the matches of `pat`.
pub open spec fn starts_within(found: Seq<int>, pat: Seq<u8>, p: int) -> bool {
    exists|i: int| 0 <= i < found.len() && #[trigger] found[i] <= p && p < found[i] + pat.len()
}

/// The search for a pattern reports real matches, none of which overlap, and passes over no match
/// but for one that overlaps a reported one.
pub proof fn search_covers_matches(buf: Seq<u8>, pat: Seq<u8>, at: int)
    requires
        pat.len() > 0,
        0 <= at,
    ensures
        covers_matches(buf, pat, at, matches_from(buf, pat, at)),
    decreases buf.len() - at,
{
    let all = matches_from(buf, pat, at);
    if at + pat.len() > buf.len() {
    } else if matches_at(buf, pat, at) {
        let next = at + pat.len();
        let rest = matches_from(buf, pat, next);
        search_covers_matches(buf, pat, next);
        assert(all == seq![at] + rest);
        assert forall|i: int| 0 <= i < all.len() implies at <= #[trigger] all[i] && matches_at(
            buf,
            pat,
            all[i],
        ) by {
            if i > 0 {
                assert(all[i] == rest[i - 1]);
            }
        }
        assert forall|i: int, j: int|
            #![trigger all[i], all[j]]
            0 <= i < j < all.len() implies all[i] + pat.len() <= all[j] by {
            assert(all[j] == rest[j - 1]);
            if i > 0 {
                assert(all[i] == rest[i - 1]);
            }
        }
        assert forall|p: int| at <= p && #[trigger] matches_at(buf, pat, p) implies starts_within(
            all,
            pat,
            p,
        ) by {
            if p >= next {
                assert(starts_within(rest, pat, p));
                let i = choose|i: int|
                    0 <= i < rest.len() && #[trigger] rest[i] <= p && p < rest[i] + pat.len();
                assert(all[i + 1] == rest[i]);
            } else {
                assert(all[0] == at);
            }
        }
    } else {
        search_covers_matches(buf, pat, at + 1);
    }
}

/// The addresses of the matches of `pat` in a buffer read at `addr`.
pub open spec fn pattern_hits(addr: usize, buf: Seq<u8>, pat: Seq<u8>) -> Seq<usize> {
    matches_from(buf, pat, 0).map_values(|at: int| addr.wrapping_add(at as usize))
}

/// Whether `pat` stands in `buf` at `at`.
fn is_match(buf: &Vec<u8>, pat: &Vec<u8>, at: usize) -> (yes: bool)
    requires
        at + pat@.len() <= buf@.len(),
    ensures
        yes == matches_at(buf@, pat@, at as int),
{
    let mut j: usize = 0;
    let len = buf.len();
    while j < pat.len()
        invariant
            j <= pat@.len(),
            at + pat@.len() <= len == buf@.len(),
            forall|i: int| 0 <= i < j ==> buf@[at + i] == #[trigger] pat@[i],
        decreases pat.len() - j,
    {
        if buf[at + j] != pat[j] {
            assert(buf@.subrange(at as int, at + pat@.len())[j as int] != pat@[j as int]);
            return false;
        }
        j = j + 1;
    }
    assert(buf@.subrange(at as int, at + pat@.len()) =~= pat@);
    true
}

/// Adds to `hits` the addresses of the matches of `pat` in a buffer read at `addr`.
pub fn push_pattern_hits(addr: usize, buf: &Vec<u8>, pat: &Vec<u8>, hits: &mut Vec<usize>)
    ensures
        final(hits)@ == old(hits)@ + pattern_hits(addr, buf@, pat@),
{
    let ghost to_addr = |at: int| addr.wrapping_add(at as usize);
    let len = buf.len();
    if pat.len() == 0 || pat.len() > len {
        assert(hits@ =~= old(hits)@ + pattern_hits(addr, buf@, pat@));
        return ;
    }
    let mut at: usize = 0;
    assert(hits@ + pattern_hits(addr, buf@, pat@) =~= old(hits)@ + pattern_hits(addr, buf@, pat@));
    while at <= len - pat.len()
        invariant
            at <= len == buf@.len(),
            0 < pat@.len() <= len,
            to_addr == (|at: int| addr.wrapping_add(at as usize)),
            hits@ + matches_from(buf@, pat@, at as int).map_values(to_addr) == old(hits)@
                + pattern_hits(addr, buf@, pat@),
        decreases len - at,
    {
        let ghost before = hits@;
        let ghost rest = matches_from(buf@, pat@, at as int);
        if is_match(buf, pat, at) {
            hits.push(addr.wrapping_add(at));
            proof {
                let next = matches_from(buf@, pat@, at + pat@.len());
                assert(rest.map_values(to_addr) =~= seq![to_addr(at as int)] + next.map_values(
                    to_addr,
                ));
                assert(hits@ + next.map_values(to_addr) =~= before + rest.map_values(to_addr));
            }
            at = at + pat.len();
        } else {
            at = at + 1;
        }
    }
    assert(matches_from(buf@, pat@, at as int).map_values(to_addr) =~= Seq::empty());
    assert(hits@ =~= old(hits)@ + pattern_hits(addr, buf@, pat@));
}

/// One UTF-16 unit, low byte first.
pub open spec fn unit_bytes(unit: int) -> Seq<u8> {
    seq![(unit % 256) as u8, (unit / 256) as u8]
}

/// A code point in UTF-16, low bytes first.
pub open spec fn utf16_char(c: u32) -> Seq<u8> {
    if c < 0x1_0000 {
        unit_bytes(c as int)
    } else {
        unit_bytes(0xd800 + (c - 0x1_0000) / 0x400) + unit_bytes(0xdc00 + (c - 0x1_0000) % 0x400)
    }
}

/// Text in UTF-16, low bytes first.
pub open spec fn utf16_text(text: Seq<char>) -> Seq<u8>
    decreases text.len(),
{
    if text.len() == 0 {
        Seq::empty()
    } else {
        utf16_text(text.drop_last()) + utf16_char(text.last() as u32)
    }
}

fn push_unit(out: &mut Vec<u8>, unit: u32)
    requires
        unit < 0x1_0000,
    ensures
        final(out)@ == old(out)@ + unit_bytes(unit as int),
{
    out.push((unit % 256) as u8);
    out.push((unit / 256) as u8);
    assert(out@ =~= old(out)@ + unit_bytes(unit as int));
}

/// Encodes text in UTF-16, low bytes first.
pub fn utf16_bytes(text: &Vec<char>) -> (out: Vec<u8>)
    ensures
        out@ == utf16_text(text@),
        out@.len() % 2 == 0,
        meaning::decoded(meaning::units(out@)) == Some(text@),
{
    let mut out: Vec<u8> = Vec::new();
    let mut i: usize = 0;
    assert(text@.take(0) =~= Seq::empty());
    while i < text.len()
        invariant
            i <= text.len(),
            out@ == utf16_text(text@.take(i as int)),
        decreases text.len() - i,
    {
        let c = text[i] as u32;
        let ghost before = out@;
        proof {
            vstd::utf8::char_is_scalar(text@[i as int]);
        }
        assert(text@.take(i + 1).drop_last() =~= text@.take(i as int));
        if c < 0x1_0000 {
            push_unit(&mut out, c);
        } else {
            let c2 = c - 0x1_0000;
            push_unit(&mut out, 0xd800 + c2 / 0x400);
            push_unit(&mut out, 0xdc00 + c2 % 0x400);
            assert(out@ =~= before + utf16_char(c));
        }
        i = i + 1;
    }
    assert(text@.take(i as int) =~= text@);
    proof {
        meaning::utf16_reads_back(text@);
    }
    out
}

} // verus!
