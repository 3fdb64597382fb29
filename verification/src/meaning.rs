//! What the terms of the contracts come to in plain numbers, bytes and characters.
use crate::bytes;
use crate::chunks;
use crate::joint;
use crate::macho;
use crate::macho::LoadCommand;
use crate::path;
use crate::path::{PointerPath, Route};
use crate::pointers;
use crate::pointers::Pointer;
use crate::process;
use crate::process::Process;
use crate::procmem;
use crate::region;
use crate::region::{Image, Region};
use crate::scan;
use crate::sort;
use crate::task;
use crate::text;
use vstd::prelude::*;

verus! {

/// A region holds its `size` addresses from `addr` on, as far as they lie below the last address
/// there is.
pub proof fn regions_hold_their_addresses(r: Region, a: usize)
    ensures
        r.holds(a) <==> r.addr <= a && a < r.addr + r.size && a < usize::MAX,
        r.addr + r.size <= usize::MAX ==> r.end_addr() == r.addr + r.size,
        r.addr + r.size > usize::MAX ==> r.end_addr() == usize::MAX,
{
}

/// An address is readable exactly if it is one of the addresses of some region.
pub proof fn readable_addresses_lie_in_a_region(regions: Seq<Region>, a: usize)
    ensures
        region::readable(regions, a) <==> exists|i: int|
            0 <= i < regions.len() && (#[trigger] regions[i]).addr <= a && a < regions[i].addr
                + regions[i].size && a < usize::MAX,
{
    if region::readable(regions, a) {
        let i = choose|i: int| 0 <= i < regions.len() && (#[trigger] regions[i]).holds(a);
        regions_hold_their_addresses(regions[i], a);
    }
    if exists|i: int|
        0 <= i < regions.len() && (#[trigger] regions[i]).addr <= a && a < regions[i].addr
            + regions[i].size && a < usize::MAX {
        let i = choose|i: int|
            0 <= i < regions.len() && (#[trigger] regions[i]).addr <= a && a < regions[i].addr
                + regions[i].size && a < usize::MAX;
        regions_hold_their_addresses(regions[i], a);
    }
}

/// An image holds its `size` addresses from `base` on.
pub proof fn images_hold_their_addresses(image: Image, a: usize)
    ensures
        image.holds(a) <==> image.base <= a && a < image.base + image.size,
{
}

/// The regions scanned are the writable ones and those that start in the image; a cap on the size
/// of regions lets through those of at most that size; a pointer is static if its location is an
/// address of the image.
pub proof fn filters_let_through(image: Image, max: usize, r: Region, e: Pointer)
    ensures
        scan::scannable(image)(r) <==> r.writable || (image.base <= r.addr && r.addr < image.base
            + image.size),
        scan::sized(max)(r) <==> r.size <= max,
        scan::located(image)(e) <==> image.base <= e.1 && e.1 < image.base + image.size,
{
}

/// The number of bytes to scan is the sum of the sizes of the regions, less as many times the number
/// of addresses as it exceeds that.
pub proof fn total_size_is_the_sum(regions: Seq<Region>)
    ensures
        regions.fold_left(0int, |sum: int, r: Region| sum + r.size) >= 0,
        scan::total_size(regions) == regions.fold_left(0int, |sum: int, r: Region| sum + r.size) % (
        usize::MAX + 1),
        regions.fold_left(0int, |sum: int, r: Region| sum + r.size) <= usize::MAX
            ==> scan::total_size(regions) == regions.fold_left(
            0int,
            |sum: int, r: Region| sum + r.size,
        ),
    decreases regions.len(),
{
    let f = |sum: int, r: Region| sum + r.size;
    let m = usize::MAX + 1;
    if regions.len() > 0 {
        let init = regions.drop_last();
        let before = init.fold_left(0int, f);
        total_size_is_the_sum(init);
        assert(regions.fold_left(0int, f) == f(before, regions.last()));
        vstd::arithmetic::div_mod::lemma_add_mod_noop(before, regions.last().size as int, m);
        vstd::arithmetic::div_mod::lemma_small_mod(regions.last().size as nat, m as nat);
        let part = before % m + regions.last().size;
        if part < m {
            vstd::arithmetic::div_mod::lemma_small_mod(part as nat, m as nat);
        } else {
            vstd::arithmetic::div_mod::lemma_small_mod((part - m) as nat, m as nat);
            vstd::arithmetic::div_mod::lemma_mod_add_multiples_vanish(part - m, m);
        }
    } else {
        vstd::arithmetic::div_mod::lemma_small_mod(0, m as nat);
    }
}

/// The number that bytes hold is their first byte plus 256 times what the others hold.
proof fn lemma_le_step(s: Seq<u8>, at: int, n: int)
    requires
        0 <= at,
        0 < n,
        at + n <= s.len(),
    ensures
        bytes::le_at(s, at, n) == s[at] + 256 * bytes::le_at(s, at + 1, n - 1),
{
    let t = s.subrange(at, at + n);
    assert(t.subrange(1, t.len() as int) =~= s.subrange(at + 1, at + 1 + (n - 1)));
}

/// Words stand lowest byte first.
pub proof fn words_stand_lowest_byte_first(s: Seq<u8>, at: int)
    requires
        0 <= at,
    ensures
        at + 4 <= s.len() ==> bytes::le_at(s, at, 4) == s[at] + 0x100 * s[at + 1] + 0x1_0000 * s[at
            + 2] + 0x100_0000 * s[at + 3],
        at + 8 <= s.len() ==> bytes::le_at(s, at, 8) == s[at] + 0x100 * s[at + 1] + 0x1_0000 * s[at
            + 2] + 0x100_0000 * s[at + 3] + 0x1_0000_0000 * s[at + 4] + 0x100_0000_0000 * s[at + 5]
            + 0x1_0000_0000_0000 * s[at + 6] + 0x100_0000_0000_0000 * s[at + 7],
        at + 8 <= s.len() ==> bytes::le_at(s, at, 8) <= u64::MAX,
        at + 4 <= s.len() ==> bytes::le_at(s, at, 4) <= u32::MAX,
{
    if at + 4 <= s.len() {
        assert(s.subrange(at + 4, at + 4) =~= Seq::empty());
        lemma_le_step(s, at, 4);
        lemma_le_step(s, at + 1, 3);
        lemma_le_step(s, at + 2, 2);
        lemma_le_step(s, at + 3, 1);
        bytes::le_value_fits(s.subrange(at, at + 4));
    }
    if at + 8 <= s.len() {
        assert(s.subrange(at + 8, at + 8) =~= Seq::empty());
        lemma_le_step(s, at, 8);
        lemma_le_step(s, at + 1, 7);
        lemma_le_step(s, at + 2, 6);
        lemma_le_step(s, at + 3, 5);
        lemma_le_step(s, at + 4, 4);
        lemma_le_step(s, at + 5, 3);
        lemma_le_step(s, at + 6, 2);
        lemma_le_step(s, at + 7, 1);
        bytes::le_value_fits(s.subrange(at, at + 8));
    }
}

/// A word that holds the signed number `n`, as two's complement has it, is near a target exactly if
/// `n` is no further from the target than the tolerance, on either side of it.
pub proof fn near_words_are_no_further_than_the_tolerance(v: u64, n: int, target: i64, tol: i64)
    requires
        -0x8000_0000_0000_0000 <= n < 0x8000_0000_0000_0000,
        v == n || v == n + 0x1_0000_0000_0000_0000,
    ensures
        bytes::within(v, target, tol) <==> (n >= target ==> n - target <= tol) && (n <= target
            ==> target - n <= tol),
{
}

/// What is near a target lies about it symmetrically.
pub proof fn near_words_lie_about_the_target(v: u64, w: u64, d: int, target: i64, tol: i64)
    requires
        v == target + d || v == target + d + 0x1_0000_0000_0000_0000,
        w == target - d || w == target - d + 0x1_0000_0000_0000_0000,
        -0x8000_0000_0000_0000 <= target + d < 0x8000_0000_0000_0000,
        -0x8000_0000_0000_0000 <= target - d < 0x8000_0000_0000_0000,
    ensures
        bytes::within(v, target, tol) <==> bytes::within(w, target, tol),
        bytes::within(v, target, tol) <==> -tol <= d <= tol,
{
}

/// The sixteen-bit units that bytes hold, low byte first.
pub open spec fn units(s: Seq<u8>) -> Seq<int> {
    Seq::new((s.len() / 2) as nat, |i: int| s[2 * i] + 0x100 * s[2 * i + 1])
}

/// The first unit of a surrogate pair.
pub open spec fn is_high(unit: int) -> bool {
    0xd800 <= unit < 0xdc00
}

/// The second unit of a surrogate pair.
pub open spec fn is_low(unit: int) -> bool {
    0xdc00 <= unit < 0xe000
}

/// The text that sixteen-bit units stand for: a unit that is no surrogate stands for the character
/// of its number, and a pair of surrogates for one from `0x1_0000` on.
pub open spec fn decoded(u: Seq<int>) -> Option<Seq<char>>
    decreases u.len(),
{
    if u.len() == 0 {
        Some(Seq::empty())
    } else {
        let unit = u.last();
        if !is_high(unit) && !is_low(unit) {
            match decoded(u.drop_last()) {
                Some(t) => Some(t.push(unit as u32 as char)),
                None => None,
            }
        } else if is_low(unit) && u.len() >= 2 && is_high(u[u.len() - 2]) {
            match decoded(u.take(u.len() - 2)) {
                Some(t) => Some(
                    t.push(
                        (0x1_0000 + 0x400 * (u[u.len() - 2] - 0xd800) + (unit
                            - 0xdc00)) as u32 as char,
                    ),
                ),
                None => None,
            }
        } else {
            None
        }
    }
}

/// The UTF-16 form of a text reads back: two bytes to a unit, low byte first, its units stand for
/// the text.
pub proof fn utf16_reads_back(t: Seq<char>)
    ensures
        bytes::utf16_text(t).len() % 2 == 0,
        decoded(units(bytes::utf16_text(t))) == Some(t),
    decreases t.len(),
{
    if t.len() == 0 {
        assert(units(bytes::utf16_text(t)) =~= Seq::empty());
        assert(t =~= Seq::empty());
    } else {
        let init = t.drop_last();
        let c = t.last() as u32;
        let a = bytes::utf16_text(init);
        let b = bytes::utf16_char(c);
        utf16_reads_back(init);
        vstd::utf8::char_is_scalar(t.last());
        let all = units(a + b);
        let n = (a.len() / 2) as int;
        assert(init.push(t.last()) =~= t);
        vstd::utf8::char_u32_cast(t.last(), c);
        if c < 0x1_0000 {
            assert(all =~= units(a).push(c as int)) by {
                assert(c == (c % 256) + 0x100 * (c / 256));
            }
            assert(all.drop_last() =~= units(a));
            assert(!is_high(all.last()) && !is_low(all.last()));
            assert(decoded(all) == Some(init.push(t.last())));
        } else {
            let high = 0xd800 + (c - 0x1_0000) / 0x400;
            let low = 0xdc00 + (c - 0x1_0000) % 0x400;
            assert(all =~= units(a).push(high).push(low)) by {
                assert(high == (high % 256) + 0x100 * (high / 256));
                assert(low == (low % 256) + 0x100 * (low / 256));
            }
            assert(all.take(all.len() - 2) =~= units(a));
            assert(all[all.len() - 2] == high && all.last() == low);
            assert(0x1_0000 + 0x400 * (high - 0xd800) + (low - 0xdc00) == c);
            assert(decoded(all) == Some(init.push(t.last())));
        }
    }
}

/// A number of dereferences is the number of offsets, but at least one.
pub proof fn depth_counts_offsets(r: Route)
    ensures
        r.1.len() > 0 ==> path::route_depth(r) == r.1.len(),
        r.1.len() == 0 ==> path::route_depth(r) == 1,
{
}

proof fn lemma_offset_sum(s: Seq<usize>)
    ensures
        path::offset_sum(s) == s.fold_left(0int, |sum: int, o: usize| sum + o),
    decreases s.len(),
{
    let f = |sum: int, o: usize| sum + o;
    if s.len() > 0 {
        lemma_offset_sum(s.drop_last());
        assert(s.fold_left(0int, f) == f(s.drop_last().fold_left(0int, f), s.last()));
    }
}

/// Routes rank by their number of dereferences, then by the sum of their offsets, then by where
/// they start.
pub proof fn routes_rank_by_depth_sum_and_start(a: Route, b: Route)
    ensures
        ({
            let depth_a: int = if a.1.len() == 0 {
                1
            } else {
                a.1.len() as int
            };
            let depth_b: int = if b.1.len() == 0 {
                1
            } else {
                b.1.len() as int
            };
            let sum_a = a.1.fold_left(0int, |sum: int, o: usize| sum + o);
            let sum_b = b.1.fold_left(0int, |sum: int, o: usize| sum + o);
            sort::rank_le(path::route_rank()(a), path::route_rank()(b)) <==> depth_a < depth_b || (
            depth_a == depth_b && (sum_a < sum_b || (sum_a == sum_b && a.0 <= b.0)))
        }),
{
    lemma_offset_sum(a.1);
    lemma_offset_sum(b.1);
}

/// Sorting regions puts them by address, keeps each as often as it was there, and keeps those of one
/// address in their order.
pub proof fn sorted_regions_ascend(
    input: Seq<Region>,
    output: Seq<Region>,
    addr: usize,
)
    requires
        sort::stable_sort_of(input, output, sort::own_rank()),
    ensures
        output.len() == input.len(),
        forall|i: int, j: int|
            #![trigger output[i], output[j]]
            0 <= i < j < output.len() ==> output[i].addr <= output[j].addr,
        output.filter(|r: Region| r.addr == addr) == input.filter(|r: Region| r.addr == addr),
{
    let rank = sort::own_rank::<Region>();
    sort::stable_sort_keeps_length(input, output, rank);
    assert forall|i: int, j: int|
        #![trigger output[i], output[j]]
        0 <= i < j < output.len() implies output[i].addr <= output[j].addr by {
        assert(sort::rank_le(rank(output[i]), rank(output[j])));
    }
    let k = (addr as int, 0int, 0int);
    assert(sort::has_rank(rank, k) =~= (|r: Region| r.addr == addr));
    assert(sort::with_rank(output, rank, k) == sort::with_rank(input, rank, k));
}

/// Sorting pointers puts them by value, keeps each as often as it was there, and keeps those of one
/// value in their order.
pub proof fn sorted_pointers_ascend(input: Seq<Pointer>, output: Seq<Pointer>, v: u64)
    requires
        sort::stable_sort_of(input, output, sort::own_rank()),
    ensures
        output.len() == input.len(),
        forall|i: int, j: int|
            #![trigger output[i], output[j]]
            0 <= i < j < output.len() ==> output[i].0 <= output[j].0,
        output.filter(|e: Pointer| e.0 == v) == input.filter(|e: Pointer| e.0 == v),
{
    let rank = sort::own_rank::<Pointer>();
    sort::stable_sort_keeps_length(input, output, rank);
    assert forall|i: int, j: int|
        #![trigger output[i], output[j]]
        0 <= i < j < output.len() implies output[i].0 <= output[j].0 by {
        assert(sort::rank_le(rank(output[i]), rank(output[j])));
    }
    let k = (v as int, 0int, 0int);
    assert(sort::has_rank(rank, k) =~= (|e: Pointer| e.0 == v));
    assert(sort::with_rank(output, rank, k) == sort::with_rank(input, rank, k));
}

/// Dropping repeats from a sequence keeps an element exactly where it differs from the one right
/// before it.
pub proof fn repeats_are_dropped<T>(s: Seq<T>, x: T)
    ensures
        sort::without_repeats(Seq::<T>::empty()) == Seq::<T>::empty(),
        s.len() > 0 && s.last() == x ==> sort::without_repeats(s.push(x))
            == sort::without_repeats(s),
        s.len() == 0 || s.last() != x ==> sort::without_repeats(s.push(x))
            == sort::without_repeats(s).push(x),
{
    let t = s.push(x);
    assert(t.drop_last() =~= s);
    if s.len() == 0 {
        assert(sort::without_repeats(t) =~= sort::without_repeats(s).push(x));
    }
}

/// A process goes by a name whose lower-case form is that of its own name, or stands in it behind
/// the last slash.
pub proof fn processes_go_by_their_names(p: Process, name: Seq<char>)
    ensures
        p.name is None ==> !process::goes_by(p, name),
        p.name is Some ==> (process::goes_by(p, name) <==> {
            let lower = text::lowercase(p.name->Some_0@);
            lower == text::lowercase(name) || exists|dir: Seq<char>|
                lower == #[trigger] (dir + seq!['/']) + text::lowercase(name)
        }),
{
    if p.name is Some {
        let lower = text::lowercase(p.name->Some_0@);
        let wanted = text::lowercase(name);
        let tail = seq!['/'] + wanted;
        if text::ends_with(lower, tail) {
            let dir = lower.take(lower.len() - tail.len());
            assert(lower =~= dir + lower.subrange(lower.len() - tail.len(), lower.len() as int));
            assert(dir + tail =~= (dir + seq!['/']) + wanted);
        }
        if exists|dir: Seq<char>| lower == #[trigger] (dir + seq!['/']) + wanted {
            let dir = choose|dir: Seq<char>| lower == #[trigger] (dir + seq!['/']) + wanted;
            assert(lower.subrange(lower.len() - tail.len(), lower.len() as int) =~= tail);
        }
    }
}

/// A C string is the text of the bytes before the first NUL, or of all bytes where there is none;
/// there is none where these are no valid UTF-8.
pub proof fn cstrings_are_the_text_before_nul(s: Seq<u8>, n: int)
    requires
        0 <= n <= s.len(),
        forall|i: int| 0 <= i < n ==> #[trigger] s[i] != 0,
        n < s.len() ==> s[n] == 0,
    ensures
        vstd::utf8::valid_utf8(s.take(n)) ==> text::cstring_text(s) == Some(
            vstd::utf8::decode_utf8(s.take(n)),
        ),
        !vstd::utf8::valid_utf8(s.take(n)) ==> text::cstring_text(s) is None,
{
    let t = text::up_to_nul(s);
    text::cstring_ends_at_nul(s);
    if t.len() < n {
        assert(s[t.len() as int] == 0);
    }
    if t.len() > n {
        assert(t[n] != 0);
        assert(t[n] == s[n]);
    }
    assert(t =~= s.take(n));
}

/// The number that decimal digits stand for.
pub open spec fn decimal_number(digits: Seq<char>) -> int
    decreases digits.len(),
{
    if digits.len() == 0 {
        0
    } else {
        10 * decimal_number(digits.drop_last()) + (digits.last() as int - '0' as int)
    }
}

/// Decimal digits, without a zero in front of others.
pub open spec fn is_decimal(t: Seq<char>) -> bool {
    &&& t.len() > 0
    &&& forall|i: int| 0 <= i < t.len() ==> '0' <= #[trigger] t[i] && t[i] <= '9'
    &&& t.len() > 1 ==> t[0] != '0'
}

proof fn lemma_decimal(n: nat)
    ensures
        is_decimal(text::digits(n, 10)),
        decimal_number(text::digits(n, 10)) == n,
        n > 0 ==> text::digits(n, 10)[0] != '0',
    decreases n,
{
    let t = text::digits(n, 10);
    if n < 10 {
        assert(t.drop_last() =~= Seq::empty());
        assert(decimal_number(t.drop_last()) == 0);
    } else {
        lemma_decimal(n / 10);
        let init = text::digits(n / 10, 10);
        assert(t == init.push(text::digit((n % 10) as int)));
        assert(t.drop_last() =~= init);
        assert(t[0] == init[0]);
    }
}

/// An error code is told in decimal, behind a minus where it is negative.
pub proof fn codes_are_told_in_decimal(n: int)
    ensures
        n >= 0 ==> is_decimal(text::decimal(n)) && decimal_number(text::decimal(n)) == n,
        n < 0 ==> text::decimal(n).len() > 0 && text::decimal(n)[0] == '-' && is_decimal(
            text::decimal(n).skip(1),
        ) && decimal_number(text::decimal(n).skip(1)) == -n,
{
    if n >= 0 {
        lemma_decimal(n as nat);
    } else {
        lemma_decimal((-n) as nat);
        assert(text::decimal(n).skip(1) =~= text::digits((-n) as nat, 10));
    }
}

/// What is said of a failure names the process, or gives the kernel's code in full.
pub proof fn failures_are_told_in_full(name: Seq<char>, code: int)
    ensures
        procmem::not_found_message(name) == "Process '"@ + name + "' not found — is it running?"@,
        procmem::task_message(code) == "task_for_pid failed (mach error "@ + text::decimal(code)
            + "). Re-sign Rekordbox with get-task-allow: run ./resign_rekordbox.sh"@,
        procmem::info_message(code) == "task_info(TASK_DYLD_INFO) failed: "@ + text::decimal(code),
{
}

/// A load command maps a segment that counts: not the guard at zero, and not an empty one.
spec fn counts(c: LoadCommand) -> bool {
    c.segment is Some && !c.segment->Some_0.pagezero && c.segment->Some_0.vmsize > 0
}

proof fn lemma_lowest(cmds: Seq<LoadCommand>, lo: int)
    requires
        lo <= u64::MAX,
        forall|i: int|
            0 <= i < cmds.len() && counts(#[trigger] cmds[i]) ==> lo
                <= cmds[i].segment->Some_0.vmaddr,
        exists|i: int|
            0 <= i < cmds.len() && counts(#[trigger] cmds[i]) && cmds[i].segment->Some_0.vmaddr
                == lo,
    ensures
        macho::lowest(cmds) == lo,
    decreases cmds.len(),
{
    let init = cmds.drop_last();
    let i = choose|i: int|
        0 <= i < cmds.len() && counts(#[trigger] cmds[i]) && cmds[i].segment->Some_0.vmaddr == lo;
    lemma_lowest_bound(init, lo);
    assert(cmds[cmds.len() - 1] == cmds.last());
    if i < init.len() {
        assert(init[i] == cmds[i]);
        assert forall|j: int| 0 <= j < init.len() && counts(#[trigger] init[j]) implies lo
            <= init[j].segment->Some_0.vmaddr by {
            assert(init[j] == cmds[j]);
        }
        lemma_lowest(init, lo);
    }
}

proof fn lemma_lowest_bound(cmds: Seq<LoadCommand>, lo: int)
    requires
        lo <= u64::MAX,
    ensures
        (forall|i: int|
            0 <= i < cmds.len() && counts(#[trigger] cmds[i]) ==> lo
                <= cmds[i].segment->Some_0.vmaddr) ==> lo <= macho::lowest(cmds),
    decreases cmds.len(),
{
    if cmds.len() > 0 {
        let init = cmds.drop_last();
        lemma_lowest_bound(init, lo);
        if forall|i: int|
            0 <= i < cmds.len() && counts(#[trigger] cmds[i]) ==> lo
                <= cmds[i].segment->Some_0.vmaddr {
            assert forall|i: int| 0 <= i < init.len() && counts(#[trigger] init[i]) implies lo
                <= init[i].segment->Some_0.vmaddr by {
                assert(init[i] == cmds[i]);
            }
            assert(cmds[cmds.len() - 1] == cmds.last());
        }
    }
}

proof fn lemma_highest_bound(cmds: Seq<LoadCommand>, hi: int)
    requires
        hi >= 0,
        hi <= u64::MAX,
        forall|i: int|
            0 <= i < cmds.len() && counts(#[trigger] cmds[i]) ==> cmds[i].segment->Some_0.vmaddr.wrapping_add(cmds[i].segment->Some_0.vmsize) <= hi,
    ensures
        macho::highest(cmds) <= hi,
        (exists|i: int|
            0 <= i < cmds.len() && counts(#[trigger] cmds[i]) && cmds[i].segment->Some_0.vmaddr.wrapping_add(cmds[i].segment->Some_0.vmsize) == hi) ==> macho::highest(cmds) == hi,
    decreases cmds.len(),
{
    if cmds.len() > 0 {
        let init = cmds.drop_last();
        assert forall|i: int| 0 <= i < init.len() && counts(
            #[trigger] init[i],
        ) implies init[i].segment->Some_0.vmaddr.wrapping_add(init[i].segment->Some_0.vmsize) <= hi by {
            assert(init[i] == cmds[i]);
        }
        lemma_highest_bound(init, hi);
        assert(cmds[cmds.len() - 1] == cmds.last());
        if exists|i: int|
            0 <= i < cmds.len() && counts(#[trigger] cmds[i]) && cmds[i].segment->Some_0.vmaddr.wrapping_add(cmds[i].segment->Some_0.vmsize) == hi {
            let i = choose|i: int|
                0 <= i < cmds.len() && counts(#[trigger] cmds[i]) && cmds[i].segment->Some_0.vmaddr.wrapping_add(cmds[i].segment->Some_0.vmsize) == hi;
            if i < init.len() {
                assert(init[i] == cmds[i]);
            }
        }
    }
}

/// The extent of an image reaches from the lowest start to the highest end of its segments, the
/// guard at zero and empty ones left out: here the `a`-th has the lowest start, the `b`-th the
/// highest end, and none runs past the last address.
pub proof fn extent_reaches_from_lowest_to_highest(cmds: Seq<LoadCommand>, a: int, b: int)
    requires
        0 <= a < cmds.len(),
        0 <= b < cmds.len(),
        forall|i: int|
            0 <= i < cmds.len() && (#[trigger] cmds[i]).segment is Some
                && !cmds[i].segment->Some_0.pagezero && cmds[i].segment->Some_0.vmsize > 0
                ==> cmds[a].segment->Some_0.vmaddr <= cmds[i].segment->Some_0.vmaddr
                && cmds[i].segment->Some_0.vmaddr + cmds[i].segment->Some_0.vmsize
                <= cmds[b].segment->Some_0.vmaddr + cmds[b].segment->Some_0.vmsize,
        cmds[a].segment is Some && !cmds[a].segment->Some_0.pagezero
            && cmds[a].segment->Some_0.vmsize > 0,
        cmds[b].segment is Some && !cmds[b].segment->Some_0.pagezero
            && cmds[b].segment->Some_0.vmsize > 0,
        cmds[b].segment->Some_0.vmaddr + cmds[b].segment->Some_0.vmsize <= u64::MAX,
        cmds[b].segment->Some_0.vmaddr + cmds[b].segment->Some_0.vmsize
            - cmds[a].segment->Some_0.vmaddr <= usize::MAX,
    ensures
        macho::extent(cmds) == cmds[b].segment->Some_0.vmaddr + cmds[b].segment->Some_0.vmsize
            - cmds[a].segment->Some_0.vmaddr,
{
    let lo = cmds[a].segment->Some_0.vmaddr as int;
    let hi = cmds[b].segment->Some_0.vmaddr + cmds[b].segment->Some_0.vmsize;
    assert(counts(cmds[a]) && counts(cmds[b]));
    assert forall|i: int| 0 <= i < cmds.len() && counts(#[trigger] cmds[i]) implies lo
        <= cmds[i].segment->Some_0.vmaddr && cmds[i].segment->Some_0.vmaddr.wrapping_add(
        cmds[i].segment->Some_0.vmsize,
    ) <= hi by {
        assert(cmds[i].segment is Some);
    }
    lemma_lowest(cmds, lo);
    lemma_highest_bound(cmds, hi);
}

proof fn lemma_nothing_counts(cmds: Seq<LoadCommand>)
    requires
        forall|i: int| 0 <= i < cmds.len() ==> !counts(#[trigger] cmds[i]),
    ensures
        macho::lowest(cmds) == u64::MAX,
    decreases cmds.len(),
{
    if cmds.len() > 0 {
        let init = cmds.drop_last();
        assert forall|i: int| 0 <= i < init.len() implies !counts(#[trigger] init[i]) by {
            assert(init[i] == cmds[i]);
        }
        lemma_nothing_counts(init);
        assert(cmds[cmds.len() - 1] == cmds.last());
    }
}

/// An image of which no segment counts has no extent.
pub proof fn extent_of_nothing_is_zero(cmds: Seq<LoadCommand>)
    requires
        forall|i: int|
            0 <= i < cmds.len() && (#[trigger] cmds[i]).segment is Some
                ==> cmds[i].segment->Some_0.pagezero || cmds[i].segment->Some_0.vmsize == 0,
    ensures
        macho::extent(cmds) == 0,
{
    assert forall|i: int| 0 <= i < cmds.len() implies !counts(#[trigger] cmds[i]) by {
        assert(cmds[i].segment is Some ==> cmds[i].segment->Some_0.pagezero
            || cmds[i].segment->Some_0.vmsize == 0);
    }
    lemma_nothing_counts(cmds);
}

/// The number that bytes hold is their first byte plus 256 times what the others hold, and nothing
/// holds zero.
pub proof fn numbers_stand_lowest_byte_first(s: Seq<u8>, at: int, n: int)
    requires
        0 <= at,
        0 <= n,
        at + n <= s.len(),
    ensures
        n == 0 ==> bytes::le_at(s, at, n) == 0,
        n > 0 ==> bytes::le_at(s, at, n) == s[at] + 256 * bytes::le_at(s, at + 1, n - 1),
{
    if n > 0 {
        lemma_le_step(s, at, n);
    } else {
        assert(s.subrange(at, at) =~= Seq::empty());
    }
}

/// Pointers in a range are those whose value lies in it, both ends included.
pub proof fn pointers_in_a_range(lo: int, hi: int, e: Pointer)
    ensures
        pointers::valued(lo, hi)(e) <==> lo <= e.0 && e.0 <= hi,
{
}

/// The plain data of results: what they hold, in its order.
pub proof fn plain_data_keep_what_they_hold(
    paths: Seq<PointerPath>,
    i: int,
    offsets: Option<Vec<usize>>,
    got: Option<Vec<u8>>,
    part: Option<(usize, Vec<u8>)>,
    text: Option<String>,
)
    ensures
        path::routes(paths).len() == paths.len(),
        0 <= i < paths.len() ==> path::routes(paths)[i] == (paths[i].rva, paths[i].rest@),
        offsets is None <==> joint::as_offsets(offsets) is None,
        offsets is Some ==> joint::as_offsets(offsets) == Some(offsets->Some_0@),
        got is None <==> task::as_bytes(got) is None,
        got is Some ==> task::as_bytes(got) == Some(got->Some_0@),
        part is None <==> chunks::region_bytes(part) is None,
        part is Some ==> chunks::region_bytes(part) == Some(part->Some_0.1@),
        text is None <==> text::as_chars(text) is None,
        text is Some ==> text::as_chars(text) == Some(text->Some_0@),
{
}

/// A lower-case name is the one looked for, or has it behind a slash at its end.
pub proof fn names_stand_whole_or_behind_a_slash(p: Seq<char>, n: Seq<char>)
    ensures
        process::named(p, n) <==> p == n || exists|dir: Seq<char>|
            p == #[trigger] (dir + seq!['/']) + n,
{
    let tail = seq!['/'] + n;
    if text::ends_with(p, tail) {
        let dir = p.take(p.len() - tail.len());
        assert(p =~= dir + p.subrange(p.len() - tail.len(), p.len() as int));
        assert(dir + tail =~= (dir + seq!['/']) + n);
    }
    if exists|dir: Seq<char>| p == #[trigger] (dir + seq!['/']) + n {
        let dir = choose|dir: Seq<char>| p == #[trigger] (dir + seq!['/']) + n;
        assert(p.subrange(p.len() - tail.len(), p.len() as int) =~= tail);
    }
}

/// Segment ends are computed with wrap-around. The extent is from the lowest start of the segments
/// that count to their highest end, and zero where that end does not lie behind that start.
pub proof fn extent_is_highest_end_less_lowest_start(cmds: Seq<LoadCommand>, a: int, b: int)
    requires
        0 <= a < cmds.len(),
        0 <= b < cmds.len(),
        forall|i: int|
            0 <= i < cmds.len() && (#[trigger] cmds[i]).segment is Some
                && !cmds[i].segment->Some_0.pagezero && cmds[i].segment->Some_0.vmsize > 0
                ==> cmds[a].segment->Some_0.vmaddr <= cmds[i].segment->Some_0.vmaddr
                && cmds[i].segment->Some_0.vmaddr.wrapping_add(cmds[i].segment->Some_0.vmsize)
                <= cmds[b].segment->Some_0.vmaddr.wrapping_add(cmds[b].segment->Some_0.vmsize),
        cmds[a].segment is Some && !cmds[a].segment->Some_0.pagezero
            && cmds[a].segment->Some_0.vmsize > 0,
        cmds[b].segment is Some && !cmds[b].segment->Some_0.pagezero
            && cmds[b].segment->Some_0.vmsize > 0,
    ensures
        ({
            let start = cmds[a].segment->Some_0.vmaddr;
            let end = cmds[b].segment->Some_0.vmaddr.wrapping_add(cmds[b].segment->Some_0.vmsize);
            &&& end > start ==> macho::extent(cmds) == (end - start) as usize
            &&& end <= start ==> macho::extent(cmds) == 0
        }),
{
    let lo = cmds[a].segment->Some_0.vmaddr as int;
    let hi = cmds[b].segment->Some_0.vmaddr.wrapping_add(cmds[b].segment->Some_0.vmsize) as int;
    assert(counts(cmds[a]) && counts(cmds[b]));
    assert forall|i: int| 0 <= i < cmds.len() && counts(#[trigger] cmds[i]) implies lo
        <= cmds[i].segment->Some_0.vmaddr && cmds[i].segment->Some_0.vmaddr.wrapping_add(
        cmds[i].segment->Some_0.vmsize,
    ) <= hi by {
        assert(cmds[i].segment is Some);
    }
    lemma_lowest(cmds, lo);
    lemma_highest_bound(cmds, hi);
}

} // verus!
