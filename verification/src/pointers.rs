//! The pointer map: which locations hold which pointers.
use crate::sort;
use crate::sort::{stable_sort, Rank, Ranked};
use vstd::prelude::*;
use vstd::slice::slice_subrange;

verus! {

/// A pointer found in memory: its value, and the location that holds it.
pub type Pointer = (u64, usize);

impl Ranked for Pointer {
    open spec fn rank(&self) -> Rank {
        (self.0 as int, 0, 0)
    }

    fn not_after(&self, other: &Self) -> (yes: bool) {
        self.0 <= other.0
    }
}

/// Having a value in `[lo, hi]`.
pub open spec fn valued(lo: int, hi: int) -> spec_fn(Pointer) -> bool {
    |e: Pointer| lo <= e.0 && e.0 <= hi
}

/// Every pointer found in memory, sorted by value.
pub struct PointerMap {
    entries: Vec<Pointer>,
}

impl View for PointerMap {
    type V = Seq<Pointer>;

    closed spec fn view(&self) -> Seq<Pointer> {
        self.entries@
    }
}

/// Where all of a sequence passes a filter, the filter keeps all of it.
proof fn lemma_filter_keeps_all<T>(s: Seq<T>, keep: spec_fn(T) -> bool)
    requires
        forall|i: int| 0 <= i < s.len() ==> keep(#[trigger] s[i]),
    ensures
        s.filter(keep) == s,
    decreases s.len(),
{
    reveal(Seq::filter);
    if s.len() > 0 {
        assert forall|i: int| 0 <= i < s.drop_last().len() implies keep(
            #[trigger] s.drop_last()[i],
        ) by {
            assert(s.drop_last()[i] == s[i]);
        }
        lemma_filter_keeps_all(s.drop_last(), keep);
        assert(s.drop_last().push(s.last()) =~= s);
    }
}

/// In a sequence that falls into a part that fails a filter, one that passes it and one that fails
/// it again, the filter keeps the middle.
proof fn lemma_filter_keeps_middle<T>(s: Seq<T>, keep: spec_fn(T) -> bool, start: int, end: int)
    requires
        0 <= start <= end <= s.len(),
        forall|i: int| 0 <= i < start ==> !keep(#[trigger] s[i]),
        forall|i: int| start <= i < end ==> keep(#[trigger] s[i]),
        forall|i: int| end <= i < s.len() ==> !keep(#[trigger] s[i]),
    ensures
        s.filter(keep) == s.subrange(start, end),
{
    let a = s.subrange(0, start);
    let b = s.subrange(start, end);
    let c = s.subrange(end, s.len() as int);
    assert(s =~= a + b + c);
    Seq::filter_distributes_over_add(a + b, c, keep);
    Seq::filter_distributes_over_add(a, b, keep);
    a.lemma_all_neg_filter_empty(keep);
    c.lemma_all_neg_filter_empty(keep);
    lemma_filter_keeps_all(b, keep);
    assert(Seq::empty() + b + Seq::empty() =~= b);
}

impl PointerMap {
    #[verifier::type_invariant]
    spec fn sorted(self) -> bool {
        sort::ordered(self.entries@, sort::own_rank())
    }

    /// Sorts pointers into a map; those of one value keep their order.
    pub fn new(pointers: Vec<Pointer>) -> (map: PointerMap)
        ensures
            sort::stable_sort_of(pointers@, map@, sort::own_rank()),
    {
        PointerMap { entries: stable_sort(pointers) }
    }

    /// The map that holds nothing.
    pub fn empty() -> (map: PointerMap)
        ensures
            map@ == Seq::<Pointer>::empty(),
    {
        PointerMap { entries: Vec::new() }
    }

    /// The pointers, by value.
    pub fn entries(&self) -> (entries: &Vec<Pointer>)
        ensures
            entries@ == self@,
    {
        &self.entries
    }

    /// The number of pointers of a value below `value`, or, if `inclusive`, not above it.
    fn partition(&self, value: u64, inclusive: bool) -> (n: usize)
        ensures
            n <= self@.len(),
            forall|i: int|
                0 <= i < n ==> (#[trigger] self@[i]).0 < value || (inclusive && self@[i].0
                    == value),
            forall|i: int|
                n <= i < self@.len() ==> (#[trigger] self@[i]).0 > value || (!inclusive
                    && self@[i].0 == value),
    {
        proof {
            use_type_invariant(self);
        }
        let mut lo: usize = 0;
        let mut hi: usize = self.entries.len();
        while lo < hi
            invariant
                lo <= hi <= self.entries@.len(),
                sort::ordered(self.entries@, sort::own_rank()),
                forall|i: int|
                    0 <= i < lo ==> (#[trigger] self.entries@[i]).0 < value || (inclusive
                        && self.entries@[i].0 == value),
                forall|i: int|
                    hi <= i < self.entries@.len() ==> (#[trigger] self.entries@[i]).0 > value || (
                    !inclusive && self.entries@[i].0 == value),
            decreases hi - lo,
        {
            let mid = lo + (hi - lo) / 2;
            let v = self.entries[mid].0;
            assert(forall|i: int| 0 <= i < mid ==> (#[trigger] self.entries@[i]).0 <= v);
            assert(forall|i: int|
                mid < i < self.entries@.len() ==> (#[trigger] self.entries@[i]).0 >= v);
            if v < value || (inclusive && v == value) {
                lo = mid + 1;
            } else {
                hi = mid;
            }
        }
        lo
    }

    /// Locations whose stored pointer value lies in `[lo, hi]`.
    pub fn ptrs_in_range(&self, lo: u64, hi: u64) -> (found: &[Pointer])
        requires
            forall|i: int|
                0 <= i < self@.len() ==> !(hi < (#[trigger] self@[i]).0 && self@[i].0 < lo),
        ensures
            found@ == self@.filter(valued(lo as int, hi as int)),
    {
        let start = self.partition(lo, false);
        let end = self.partition(hi, true);
        proof {
            if end < start {
                assert(self@[end as int].0 > hi && self@[end as int].0 < lo);
            }
            lemma_filter_keeps_middle(
                self@,
                valued(lo as int, hi as int),
                start as int,
                end as int,
            );
        }
        slice_subrange(self.entries.as_slice(), start, end)
    }

    /// Locations in the pointer map holding exactly `value`.
    pub fn locs_with_value(&self, value: u64) -> (found: &[Pointer])
        ensures
            found@ == self@.filter(valued(value as int, value as int)),
    {
        self.ptrs_in_range(value, value)
    }
}

} // verus!
