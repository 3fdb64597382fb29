//! Byte snapshots of memory, and what changed between two of them.
use crate::bytes;
use std::collections::HashMap;
use vstd::prelude::*;

verus! {

/// Snapshots as plain data: the address of each region, and its bytes.
pub type Snapshot = Seq<(usize, Seq<u8>)>;

/// What a snapshot holds.
pub open spec fn snapshot_of(s: Seq<(usize, Vec<u8>)>) -> Snapshot {
    s.map_values(|e: (usize, Vec<u8>)| (e.0, e.1@))
}

/// The bytes that a snapshot holds of the region at `addr`; of two such regions, those of the later.
pub open spec fn bytes_at(s: Snapshot, addr: usize) -> Option<Seq<u8>>
    decreases s.len(),
{
    if s.len() == 0 {
        None
    } else if s.last().0 == addr {
        Some(s.last().1)
    } else {
        bytes_at(s.drop_last(), addr)
    }
}

/// The address of the `i`-th byte of a region, if the byte was `want_a` and is `want_b`.
pub open spec fn changed_byte(
    addr: usize,
    was: Seq<u8>,
    is: Seq<u8>,
    want_a: u8,
    want_b: u8,
) -> spec_fn(int) -> Option<usize> {
    |i: int|
        if was[i] == want_a && is[i] == want_b {
            Some(addr.wrapping_add(i as usize))
        } else {
            None
        }
}

/// The addresses in a region at which the byte was `want_a` and is `want_b`.
pub open spec fn changed_bytes(
    addr: usize,
    was: Seq<u8>,
    is: Seq<u8>,
    want_a: u8,
    want_b: u8,
) -> Seq<usize> {
    bytes::picks(
        if was.len() < is.len() {
            was.len() as int
        } else {
            is.len() as int
        },
        changed_byte(addr, was, is, want_a, want_b),
    )
}

/// The addresses at which the byte is `want_a` in `a` and `want_b` in `b`, region by region of `a`.
pub open spec fn changes(a: Snapshot, b: Snapshot, want_a: u8, want_b: u8) -> Seq<usize>
    decreases a.len(),
{
    if a.len() == 0 {
        Seq::empty()
    } else {
        changes(a.drop_last(), b, want_a, want_b) + (match bytes_at(b, a.last().0) {
            Some(is) => changed_bytes(a.last().0, a.last().1, is, want_a, want_b),
            None => Seq::empty(),
        })
    }
}

/// The `k`-th byte of the `i`-th region of `a` is `want_a` there, and `want_b` in `b`.
pub open spec fn byte_changed(
    a: Snapshot,
    b: Snapshot,
    want_a: u8,
    want_b: u8,
    i: int,
    k: int,
) -> bool {
    &&& 0 <= i < a.len()
    &&& 0 <= k < a[i].1.len()
    &&& a[i].1[k] == want_a
    &&& bytes_at(b, a[i].0) matches Some(is) && k < is.len() && is[k] == want_b
}

/// The byte diff reports exactly the addresses whose byte is `want_a` in `a` and `want_b` in `b`.
pub proof fn diff_is_exact(a: Snapshot, b: Snapshot, want_a: u8, want_b: u8, addr: usize)
    ensures
        changes(a, b, want_a, want_b).contains(addr) <==> exists|i: int, k: int| #[trigger]
            byte_changed(a, b, want_a, want_b, i, k) && addr == a[i].0.wrapping_add(k as usize),
    decreases a.len(),
{
    let all = changes(a, b, want_a, want_b);
    if a.len() > 0 {
        let init = a.drop_last();
        let n = a.len() - 1;
        let before = changes(init, b, want_a, want_b);
        diff_is_exact(init, b, want_a, want_b, addr);
        let end = match bytes_at(b, a.last().0) {
            Some(is) => changed_bytes(a.last().0, a.last().1, is, want_a, want_b),
            None => Seq::empty(),
        };
        if bytes_at(b, a.last().0) is Some {
            let is = bytes_at(b, a.last().0)->Some_0;
            let count = if a.last().1.len() < is.len() {
                a.last().1.len() as int
            } else {
                is.len() as int
            };
            let f = changed_byte(a.last().0, a.last().1, is, want_a, want_b);
            bytes::picks_are_what_f_gives(count, f, addr);
            if end.contains(addr) {
                let k = choose|k: int| 0 <= k < count && #[trigger] f(k) == Some(addr);
                assert(byte_changed(a, b, want_a, want_b, n, k));
            }
        }
        if all.contains(addr) {
            let j = choose|j: int| 0 <= j < all.len() && all[j] == addr;
            if j < before.len() {
                assert(before[j] == addr);
                assert(before.contains(addr));
                let (i, k) = choose|i: int, k: int| #[trigger]
                    byte_changed(init, b, want_a, want_b, i, k) && addr == init[i].0.wrapping_add(
                        k as usize,
                    );
                assert(byte_changed(a, b, want_a, want_b, i, k));
            } else {
                assert(end[j - before.len()] == addr);
                assert(end.contains(addr));
            }
        }
        if exists|i: int, k: int| #[trigger]
            byte_changed(a, b, want_a, want_b, i, k) && addr == a[i].0.wrapping_add(k as usize) {
            let (i, k) = choose|i: int, k: int| #[trigger]
                byte_changed(a, b, want_a, want_b, i, k) && addr == a[i].0.wrapping_add(
                    k as usize,
                );
            if i < n {
                assert(byte_changed(init, b, want_a, want_b, i, k));
                let j = choose|j: int| 0 <= j < before.len() && before[j] == addr;
                assert(all[j] == addr);
            } else {
                let is = bytes_at(b, a.last().0)->Some_0;
                let f = changed_byte(a.last().0, a.last().1, is, want_a, want_b);
                assert(f(k) == Some(addr));
                assert(end.contains(addr));
                let j = choose|j: int| 0 <= j < end.len() && end[j] == addr;
                assert(all[before.len() + j] == addr);
            }
        }
    }
}

/// Where two snapshots hold the same bytes of every region of `a`, whatever else they hold and in
/// whatever order, they differ from `a` alike.
pub proof fn diff_matches_by_address(
    a: Snapshot,
    b: Snapshot,
    other: Snapshot,
    want_a: u8,
    want_b: u8,
)
    requires
        forall|i: int|
            0 <= i < a.len() ==> bytes_at(b, (#[trigger] a[i]).0) == bytes_at(other, a[i].0),
    ensures
        changes(a, b, want_a, want_b) == changes(a, other, want_a, want_b),
    decreases a.len(),
{
    if a.len() > 0 {
        let init = a.drop_last();
        assert forall|i: int| 0 <= i < init.len() implies bytes_at(b, (#[trigger] init[i]).0)
            == bytes_at(other, init[i].0) by {
            assert(init[i] == a[i]);
        }
        diff_matches_by_address(init, b, other, want_a, want_b);
        assert(a.last() == a[a.len() - 1]);
    }
}

proof fn lemma_bytes_at_insert(s: Snapshot, at: int, e: (usize, Seq<u8>), addr: usize)
    requires
        0 <= at <= s.len(),
        e.0 != addr,
    ensures
        bytes_at(s.insert(at, e), addr) == bytes_at(s, addr),
    decreases s.len(),
{
    let t = s.insert(at, e);
    if at == s.len() {
        assert(t.drop_last() =~= s);
    } else {
        assert(t.drop_last() =~= s.drop_last().insert(at, e));
        assert(t.last() == s.last());
        lemma_bytes_at_insert(s.drop_last(), at, e, addr);
    }
}

/// A region that `a` does not have makes no difference to the byte diff, wherever it turns up in
/// `b`, or goes missing from there.
pub proof fn diff_ignores_other_regions(
    a: Snapshot,
    b: Snapshot,
    at: int,
    e: (usize, Seq<u8>),
    want_a: u8,
    want_b: u8,
)
    requires
        0 <= at <= b.len(),
        forall|i: int| 0 <= i < a.len() ==> (#[trigger] a[i]).0 != e.0,
    ensures
        changes(a, b.insert(at, e), want_a, want_b) == changes(a, b, want_a, want_b),
{
    assert forall|i: int| 0 <= i < a.len() implies bytes_at(b.insert(at, e), (#[trigger] a[i]).0)
        == bytes_at(b, a[i].0) by {
        lemma_bytes_at_insert(b, at, e, a[i].0);
    }
    diff_matches_by_address(a, b.insert(at, e), b, want_a, want_b);
}

/// A region of `a` that `b` does not have makes no difference to the byte diff.
pub proof fn diff_ignores_missing_regions(
    a: Snapshot,
    b: Snapshot,
    at: int,
    e: (usize, Seq<u8>),
    want_a: u8,
    want_b: u8,
)
    requires
        0 <= at <= a.len(),
        bytes_at(b, e.0) is None,
    ensures
        changes(a.insert(at, e), b, want_a, want_b) == changes(a, b, want_a, want_b),
    decreases a.len(),
{
    let t = a.insert(at, e);
    if at == a.len() {
        assert(t.drop_last() =~= a);
        assert(changes(a, b, want_a, want_b) + Seq::empty() =~= changes(a, b, want_a, want_b));
    } else {
        assert(t.drop_last() =~= a.drop_last().insert(at, e));
        assert(t.last() == a.last());
        diff_ignores_missing_regions(a.drop_last(), b, at, e, want_a, want_b);
    }
}

/// No two regions of a snapshot have the same address.
pub open spec fn addressed_once(s: Snapshot) -> bool {
    forall|i: int, j: int| #![trigger s[i], s[j]] 0 <= i < j < s.len() ==> s[i].0 != s[j].0
}

/// The addresses at which a region of a snapshot changed, as against another snapshot.
spec fn region_changes(e: (usize, Seq<u8>), b: Snapshot, want_a: u8, want_b: u8) -> Seq<usize> {
    match bytes_at(b, e.0) {
        Some(is) => changed_bytes(e.0, e.1, is, want_a, want_b),
        None => Seq::empty(),
    }
}

/// Where each address occurs once, a snapshot holds of a region the bytes that stand there.
proof fn lemma_bytes_at_index(s: Snapshot, i: int)
    requires
        addressed_once(s),
        0 <= i < s.len(),
    ensures
        bytes_at(s, s[i].0) == Some(s[i].1),
    decreases s.len(),
{
    if i < s.len() - 1 {
        let init = s.drop_last();
        assert(addressed_once(init)) by {
            assert(forall|k: int| 0 <= k < init.len() ==> init[k] == s[k]);
        }
        lemma_bytes_at_index(init, i);
        assert(s.last() == s[s.len() - 1]);
    }
}

proof fn lemma_bytes_at_none(s: Snapshot, addr: usize)
    ensures
        bytes_at(s, addr) is None ==> forall|i: int|
            0 <= i < s.len() ==> (#[trigger] s[i]).0 != addr,
        bytes_at(s, addr) is Some ==> exists|i: int|
            0 <= i < s.len() && (#[trigger] s[i]).0 == addr,
    decreases s.len(),
{
    if s.len() > 0 {
        let init = s.drop_last();
        lemma_bytes_at_none(init, addr);
        if bytes_at(s, addr) is None {
            assert forall|i: int| 0 <= i < s.len() implies (#[trigger] s[i]).0 != addr by {
                if i < init.len() {
                    assert(init[i] == s[i]);
                }
            }
        } else if s.last().0 == addr {
            assert(s[s.len() - 1].0 == addr);
        } else {
            let i = choose|i: int| 0 <= i < init.len() && (#[trigger] init[i]).0 == addr;
            assert(s[i].0 == addr);
        }
    }
}

/// What changed in a region is the same seen from either side.
proof fn lemma_changed_bytes_swap(
    addr: usize,
    was: Seq<u8>,
    is: Seq<u8>,
    want_a: u8,
    want_b: u8,
)
    ensures
        changed_bytes(addr, was, is, want_a, want_b) == changed_bytes(
            addr,
            is,
            was,
            want_b,
            want_a,
        ),
{
    assert(changed_byte(addr, was, is, want_a, want_b) =~= changed_byte(
        addr,
        is,
        was,
        want_b,
        want_a,
    ));
}

/// Taking a region out of a snapshot takes its changes out of the diff.
proof fn lemma_changes_remove(a: Snapshot, b: Snapshot, want_a: u8, want_b: u8, j: int)
    requires
        0 <= j < a.len(),
    ensures
        changes(a, b, want_a, want_b).to_multiset() == changes(
            a.remove(j),
            b,
            want_a,
            want_b,
        ).to_multiset().add(region_changes(a[j], b, want_a, want_b).to_multiset()),
    decreases a.len(),
{
    let init = a.drop_last();
    let end = region_changes(a.last(), b, want_a, want_b);
    let whole = changes(a, b, want_a, want_b);
    vstd::seq_lib::lemma_multiset_commutative(changes(init, b, want_a, want_b), end);
    assert(whole == changes(init, b, want_a, want_b) + end);
    if j == a.len() - 1 {
        assert(a.remove(j) =~= init);
    } else {
        let rest = a.remove(j);
        lemma_changes_remove(init, b, want_a, want_b, j);
        assert(rest.drop_last() =~= init.remove(j));
        assert(rest.last() == a.last());
        vstd::seq_lib::lemma_multiset_commutative(
            changes(init.remove(j), b, want_a, want_b),
            end,
        );
        assert(init[j] == a[j]);
        assert(changes(rest, b, want_a, want_b) == changes(init.remove(j), b, want_a, want_b)
            + end);
        let m = changes(init.remove(j), b, want_a, want_b).to_multiset();
        let part = region_changes(a[j], b, want_a, want_b).to_multiset();
        assert(m.add(part).add(end.to_multiset()) =~= m.add(end.to_multiset()).add(part));
    }
}

/// Where each address occurs once in either snapshot, the diff the other way round, with the bytes
/// the other way round, reports the same addresses, if in another order.
pub proof fn diff_is_symmetric(a: Snapshot, b: Snapshot, want_a: u8, want_b: u8)
    requires
        addressed_once(a),
        addressed_once(b),
    ensures
        changes(b, a, want_b, want_a).to_multiset() == changes(a, b, want_a, want_b).to_multiset(),
    decreases a.len(),
{
    if a.len() == 0 {
        lemma_no_changes(b, a, want_b, want_a);
    } else {
        let init = a.drop_last();
        let e = a.last();
        let end = region_changes(e, b, want_a, want_b);
        assert(a[a.len() - 1] == e);
        assert(forall|k: int| 0 <= k < init.len() ==> init[k] == a[k]);
        assert(addressed_once(init));
        assert(a =~= init.insert(init.len() as int, e));
        assert(changes(a, b, want_a, want_b) == changes(init, b, want_a, want_b) + end);
        lemma_bytes_at_none(b, e.0);
        if bytes_at(b, e.0) is None {
            diff_is_symmetric(init, b, want_a, want_b);
            diff_ignores_other_regions(b, init, init.len() as int, e, want_b, want_a);
            assert(changes(init, b, want_a, want_b) + end =~= changes(init, b, want_a, want_b));
        } else {
            let j = choose|j: int| 0 <= j < b.len() && (#[trigger] b[j]).0 == e.0;
            let rest = b.remove(j);
            assert(b =~= rest.insert(j, b[j]));
            assert forall|k: int| 0 <= k < rest.len() implies (#[trigger] rest[k]).0 != e.0 by {
                if k < j {
                    assert(rest[k] == b[k]);
                } else {
                    assert(rest[k] == b[k + 1]);
                }
            }
            assert(addressed_once(rest)) by {
                assert forall|x: int, y: int|
                    #![trigger rest[x], rest[y]]
                    0 <= x < y < rest.len() implies rest[x].0 != rest[y].0 by {
                    let p = if x < j {
                        x
                    } else {
                        x + 1
                    };
                    let q = if y < j {
                        y
                    } else {
                        y + 1
                    };
                    assert(rest[x] == b[p] && rest[y] == b[q]);
                }
            }
            diff_is_symmetric(init, rest, want_a, want_b);
            diff_ignores_other_regions(init, rest, j, b[j], want_a, want_b);
            diff_ignores_other_regions(rest, init, init.len() as int, e, want_b, want_a);
            lemma_changes_remove(b, a, want_b, want_a, j);
            lemma_bytes_at_index(a, a.len() - 1);
            lemma_bytes_at_index(b, j);
            lemma_changed_bytes_swap(e.0, e.1, b[j].1, want_a, want_b);
            vstd::seq_lib::lemma_multiset_commutative(changes(init, b, want_a, want_b), end);
        }
    }
}

/// Against a snapshot without regions nothing changed.
proof fn lemma_no_changes(a: Snapshot, b: Snapshot, want_a: u8, want_b: u8)
    requires
        b.len() == 0,
    ensures
        changes(a, b, want_a, want_b) == Seq::<usize>::empty(),
        changes(b, a, want_b, want_a) == Seq::<usize>::empty(),
    decreases a.len(),
{
    if a.len() > 0 {
        lemma_no_changes(a.drop_last(), b, want_a, want_b);
    }
}

/// Where each address occurs once, a snapshot does not differ from itself: no byte is two different
/// values.
pub proof fn diff_with_itself_is_empty(a: Snapshot, want_a: u8, want_b: u8)
    requires
        addressed_once(a),
        want_a != want_b,
    ensures
        changes(a, a, want_a, want_b) == Seq::<usize>::empty(),
{
    let all = changes(a, a, want_a, want_b);
    if all.len() > 0 {
        let addr = all[0];
        assert(all.contains(addr));
        diff_is_exact(a, a, want_a, want_b, addr);
        let (i, k) = choose|i: int, k: int| #[trigger]
            byte_changed(a, a, want_a, want_b, i, k) && addr == a[i].0.wrapping_add(k as usize);
        lemma_bytes_at_index(a, i);
    }
    assert(all =~= Seq::empty());
}

/// Adds to `hits` the addresses in a region at which the byte was `want_a` and is `want_b`.
fn push_changed_bytes(
    addr: usize,
    was: &Vec<u8>,
    is: &Vec<u8>,
    want_a: u8,
    want_b: u8,
    hits: &mut Vec<usize>,
)
    ensures
        final(hits)@ == old(hits)@ + changed_bytes(addr, was@, is@, want_a, want_b),
{
    let ghost f = changed_byte(addr, was@, is@, want_a, want_b);
    let n = if was.len() < is.len() {
        was.len()
    } else {
        is.len()
    };
    let mut i: usize = 0;
    proof {
        bytes::picks_next(0, f);
        assert(hits@ =~= old(hits)@ + bytes::picks(0, f));
    }
    while i < n
        invariant
            i <= n <= was@.len(),
            n <= is@.len(),
            f == changed_byte(addr, was@, is@, want_a, want_b),
            hits@ == old(hits)@ + bytes::picks(i as int, f),
        decreases n - i,
    {
        if was[i] == want_a && is[i] == want_b {
            hits.push(addr.wrapping_add(i));
        }
        proof {
            bytes::picks_next(i as int, f);
            assert(hits@ =~= old(hits)@ + bytes::picks(i + 1, f));
        }
        i = i + 1;
    }
}

/// Which entry of a snapshot holds the region at an address.
fn index_by_addr(s: &[(usize, Vec<u8>)]) -> (index: HashMap<usize, usize>)
    ensures
        forall|addr: usize|
            #![trigger bytes_at(snapshot_of(s@), addr)]
            match bytes_at(snapshot_of(s@), addr) {
                Some(b) => index@.contains_key(addr) && index@[addr] < s@.len()
                    && s@[index@[addr] as int].1@ == b,
                None => !index@.contains_key(addr),
            },
{
    broadcast use vstd::std_specs::hash::group_hash_axioms;

    let mut index: HashMap<usize, usize> = HashMap::new();
    let mut i: usize = 0;
    let ghost snap = snapshot_of(s@);
    assert(snap.take(0) =~= Seq::empty());
    while i < s.len()
        invariant
            i <= s@.len(),
            snap == snapshot_of(s@),
            forall|addr: usize|
                #![trigger bytes_at(snap.take(i as int), addr)]
                match bytes_at(snap.take(i as int), addr) {
                    Some(b) => index@.contains_key(addr) && index@[addr] < i
                        && s@[index@[addr] as int].1@ == b,
                    None => !index@.contains_key(addr),
                },
        decreases s.len() - i,
    {
        let ghost before = index@;
        index.insert(s[i].0, i);
        proof {
            let now = snap.take(i + 1);
            assert(now.drop_last() =~= snap.take(i as int));
            assert(now.last() == (s@[i as int].0, s@[i as int].1@));
            assert forall|addr: usize|
                #![trigger bytes_at(now, addr)]
                match bytes_at(now, addr) {
                    Some(b) => index@.contains_key(addr) && index@[addr] < i + 1
                        && s@[index@[addr] as int].1@ == b,
                    None => !index@.contains_key(addr),
                } by {
                let earlier = bytes_at(snap.take(i as int), addr);
                assert(match earlier {
                    Some(b) => before.contains_key(addr) && before[addr] < i
                        && s@[before[addr] as int].1@ == b,
                    None => !before.contains_key(addr),
                });
            }
        }
        i = i + 1;
    }
    assert(snap.take(i as int) =~= snap);
    index
}

/// Addresses where the byte equals `want_a` in snapshot `a` and `want_b` in snapshot `b` (a change
/// detector for enumerated small values). Regions are matched by address, not position: robust to
/// regions being added or removed between snapshots.
pub fn diff_byte(
    a: &[(usize, Vec<u8>)],
    b: &[(usize, Vec<u8>)],
    want_a: u8,
    want_b: u8,
) -> (hits: Vec<usize>)
    ensures
        hits@ == changes(snapshot_of(a@), snapshot_of(b@), want_a, want_b),
{
    broadcast use vstd::std_specs::hash::group_hash_axioms;

    let index = index_by_addr(b);
    let mut hits: Vec<usize> = Vec::new();
    let mut i: usize = 0;
    let ghost snap_a = snapshot_of(a@);
    let ghost snap_b = snapshot_of(b@);
    assert(snap_a.take(0) =~= Seq::empty());
    while i < a.len()
        invariant
            i <= a@.len(),
            snap_a == snapshot_of(a@),
            snap_b == snapshot_of(b@),
            hits@ == changes(snap_a.take(i as int), snap_b, want_a, want_b),
            forall|addr: usize|
                #![trigger bytes_at(snap_b, addr)]
                match bytes_at(snap_b, addr) {
                    Some(bytes) => index@.contains_key(addr) && index@[addr] < b@.len()
                        && b@[index@[addr] as int].1@ == bytes,
                    None => !index@.contains_key(addr),
                },
        decreases a.len() - i,
    {
        let addr = a[i].0;
        proof {
            let now = snap_a.take(i + 1);
            assert(now.drop_last() =~= snap_a.take(i as int));
            assert(now.last() == (a@[i as int].0, a@[i as int].1@));
            let other = bytes_at(snap_b, addr);
        }
        let ghost before = hits@;
        match index.get(&addr) {
            Some(j) => {
                push_changed_bytes(addr, &a[i].1, &b[*j].1, want_a, want_b, &mut hits);
            },
            None => {
                // this region isn't in the other snapshot
                assert(before + Seq::empty() =~= before);
            },
        }
        i = i + 1;
    }
    assert(snap_a.take(i as int) =~= snap_a);
    hits
}

} // verus!
