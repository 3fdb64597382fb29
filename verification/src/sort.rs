//! Stable sorting by a rank, and removal of consecutive duplicates.
use vstd::prelude::*;

verus! {

/// What elements are ordered by: three integers, the first deciding first.
pub type Rank = (int, int, int);

/// Lexicographic order of ranks.
pub open spec fn rank_le(a: Rank, b: Rank) -> bool {
    a.0 < b.0 || (a.0 == b.0 && (a.1 < b.1 || (a.1 == b.1 && a.2 <= b.2)))
}

/// A type whose values are sorted by a rank.
pub trait Ranked: Sized {
    /// The rank of the value.
    spec fn rank(&self) -> Rank;

    /// Whether `self` ranks no higher than `other`.
    fn not_after(&self, other: &Self) -> (yes: bool)
        ensures
            yes == rank_le(self.rank(), other.rank()),
    ;
}

/// The rank of a type's values, as a function.
pub open spec fn own_rank<T: Ranked>() -> spec_fn(T) -> Rank {
    |x: T| x.rank()
}

/// The ranks never fall along `s`.
pub open spec fn ordered<T>(s: Seq<T>, rank: spec_fn(T) -> Rank) -> bool {
    forall|i: int, j: int|
        #![trigger s[i], s[j]]
        0 <= i < j < s.len() ==> rank_le(rank(s[i]), rank(s[j]))
}

/// Having rank `k`.
pub open spec fn has_rank<T>(rank: spec_fn(T) -> Rank, k: Rank) -> spec_fn(T) -> bool {
    |x: T| rank(x) == k
}

/// The elements of `s` that have rank `k`, in the order they have in `s`.
pub open spec fn with_rank<T>(s: Seq<T>, rank: spec_fn(T) -> Rank, k: Rank) -> Seq<T> {
    s.filter(has_rank(rank, k))
}

/// `output` is `input` sorted by rank, elements of one rank keeping the order they had.
pub open spec fn stable_sort_of<T>(input: Seq<T>, output: Seq<T>, rank: spec_fn(T) -> Rank) -> bool {
    &&& ordered(output, rank)
    &&& forall|k: Rank| #[trigger] with_rank(output, rank, k) == with_rank(input, rank, k)
}

/// Splitting the last element off what `with_rank` selects from.
proof fn lemma_with_rank_last<T>(s: Seq<T>, rank: spec_fn(T) -> Rank, k: Rank)
    requires
        s.len() > 0,
    ensures
        with_rank(s, rank, k) == with_rank(s.drop_last(), rank, k) + (if rank(s.last()) == k {
            seq![s.last()]
        } else {
            Seq::empty()
        }),
{
    reveal(Seq::filter);
    assert(with_rank(s, rank, k) =~= with_rank(s.drop_last(), rank, k) + (if rank(s.last()) == k {
        seq![s.last()]
    } else {
        Seq::empty()
    }));
}

/// `with_rank` selects from each part of a concatenation.
proof fn lemma_with_rank_add<T>(a: Seq<T>, b: Seq<T>, rank: spec_fn(T) -> Rank, k: Rank)
    ensures
        with_rank(a + b, rank, k) == with_rank(a, rank, k) + with_rank(b, rank, k),
{
    Seq::filter_distributes_over_add(a, b, has_rank(rank, k));
}

/// What `with_rank` selects from a single element.
proof fn lemma_with_rank_one<T>(x: T, rank: spec_fn(T) -> Rank, k: Rank)
    ensures
        with_rank(seq![x], rank, k) == (if rank(x) == k {
            seq![x]
        } else {
            Seq::empty()
        }),
{
    lemma_with_rank_last(seq![x], rank, k);
    assert(seq![x].drop_last() =~= Seq::<T>::empty());
    reveal(Seq::filter);
    assert(with_rank(seq![x], rank, k) =~= (if rank(x) == k {
        seq![x]
    } else {
        Seq::empty()
    }));
}

/// Merges two ordered vectors; where ranks are equal, what stands in `a` comes first.
fn merge<T: Ranked>(a: Vec<T>, b: Vec<T>) -> (out: Vec<T>)
    requires
        ordered(a@, own_rank()),
        ordered(b@, own_rank()),
    ensures
        ordered(out@, own_rank()),
        forall|k: Rank|
            #[trigger] with_rank(out@, own_rank(), k) == with_rank(a@, own_rank(), k) + with_rank(
                b@,
                own_rank(),
                k,
            ),
{
    let ghost rank = own_rank::<T>();
    let ghost a0 = a@;
    let ghost b0 = b@;
    let mut a = a;
    let mut b = b;
    let mut backward: Vec<T> = Vec::new();
    let ghost mut done: Seq<T> = Seq::empty();
    proof {
        assert forall|k: Rank| #[trigger]
            with_rank(a0, rank, k) + with_rank(b0, rank, k) == with_rank(a@, rank, k) + with_rank(
                b@,
                rank,
                k,
            ) + with_rank(done, rank, k) by {
            reveal(Seq::filter);
            assert(with_rank(done, rank, k) =~= Seq::empty());
        }
    }
    while a.len() > 0 || b.len() > 0
        invariant
            rank == own_rank::<T>(),
            ordered(a@, rank),
            ordered(b@, rank),
            ordered(done, rank),
            forall|i: int, j: int|
                #![trigger a@[i], done[j]]
                0 <= i < a@.len() && 0 <= j < done.len() ==> rank_le(rank(a@[i]), rank(done[j])),
            forall|i: int, j: int|
                #![trigger b@[i], done[j]]
                0 <= i < b@.len() && 0 <= j < done.len() ==> rank_le(rank(b@[i]), rank(done[j])),
            backward@ == done.reverse(),
            forall|k: Rank| #[trigger]
                with_rank(a0, rank, k) + with_rank(b0, rank, k) == with_rank(a@, rank, k)
                    + with_rank(b@, rank, k) + with_rank(done, rank, k),
        decreases a.len() + b.len(),
    {
        let ghost a1 = a@;
        let ghost b1 = b@;
        let ghost done1 = done;
        let from_b = if b.len() == 0 {
            false
        } else if a.len() == 0 {
            true
        } else {
            a[a.len() - 1].not_after(&b[b.len() - 1])
        };
        if from_b {
            let x = b.pop().unwrap();
            proof {
                done = seq![x] + done1;
                assert(b@ =~= b1.drop_last());
                assert forall|k: Rank| #[trigger]
                    with_rank(a0, rank, k) + with_rank(b0, rank, k) == with_rank(a@, rank, k)
                        + with_rank(b@, rank, k) + with_rank(done, rank, k) by {
                    lemma_with_rank_last(b1, rank, k);
                    lemma_with_rank_add(seq![x], done1, rank, k);
                    lemma_with_rank_one(x, rank, k);
                    assert(with_rank(a@, rank, k) + with_rank(b1, rank, k) + with_rank(
                        done1,
                        rank,
                        k,
                    ) =~= with_rank(a@, rank, k) + with_rank(b@, rank, k) + with_rank(
                        done,
                        rank,
                        k,
                    ));
                }
            }
            backward.push(x);
        } else {
            let x = a.pop().unwrap();
            proof {
                done = seq![x] + done1;
                assert(a@ =~= a1.drop_last());
                assert forall|k: Rank| #[trigger]
                    with_rank(a0, rank, k) + with_rank(b0, rank, k) == with_rank(a@, rank, k)
                        + with_rank(b@, rank, k) + with_rank(done, rank, k) by {
                    lemma_with_rank_last(a1, rank, k);
                    lemma_with_rank_add(seq![x], done1, rank, k);
                    lemma_with_rank_one(x, rank, k);
                    if rank(x) == k {
                        let hit = has_rank(rank, k);
                        assert forall|i: int| 0 <= i < b@.len() implies !hit(#[trigger] b@[i]) by {
                            assert(b@[b@.len() - 1] == b1.last());
                        }
                        b@.lemma_all_neg_filter_empty(hit);
                    }
                    assert(with_rank(a1, rank, k) + with_rank(b@, rank, k) + with_rank(
                        done1,
                        rank,
                        k,
                    ) =~= with_rank(a@, rank, k) + with_rank(b@, rank, k) + with_rank(
                        done,
                        rank,
                        k,
                    ));
                }
            }
            backward.push(x);
        }
        assert(backward@ =~= done.reverse());
    }
    let mut out: Vec<T> = Vec::new();
    while backward.len() > 0
        invariant
            out@ + backward@.reverse() == done,
        decreases backward.len(),
    {
        let ghost out1 = out@;
        let ghost backward1 = backward@;
        let x = backward.pop().unwrap();
        out.push(x);
        assert(out@ + backward@.reverse() =~= out1 + backward1.reverse());
    }
    proof {
        assert(out@ =~= done);
        assert forall|k: Rank| #[trigger]
            with_rank(out@, rank, k) == with_rank(a0, rank, k) + with_rank(b0, rank, k) by {
            reveal(Seq::filter);
            assert(with_rank(a@, rank, k) + with_rank(b@, rank, k) + with_rank(done, rank, k)
                =~= with_rank(done, rank, k));
        }
    }
    out
}

/// Sorts by rank; elements of one rank keep their order.
pub fn stable_sort<T: Ranked>(v: Vec<T>) -> (out: Vec<T>)
    ensures
        stable_sort_of(v@, out@, own_rank()),
    decreases v.len(),
{
    if v.len() < 2 {
        return v;
    }
    let ghost rank = own_rank::<T>();
    let ghost v0 = v@;
    let mut left = v;
    let mid = left.len() / 2;
    let right = left.split_off(mid);
    let ghost l0 = left@;
    let ghost r0 = right@;
    let left = stable_sort(left);
    let right = stable_sort(right);
    let ghost l1 = left@;
    let ghost r1 = right@;
    let out = merge(left, right);
    proof {
        assert(v0 =~= l0 + r0);
        assert forall|k: Rank| #[trigger]
            with_rank(out@, rank, k) == with_rank(v0, rank, k) by {
            lemma_with_rank_add(l0, r0, rank, k);
            assert(with_rank(l1, rank, k) == with_rank(l0, rank, k));
            assert(with_rank(r1, rank, k) == with_rank(r0, rank, k));
        }
    }
    out
}

/// An element is selected by `with_rank` exactly if it stands in the sequence with that rank.
proof fn lemma_with_rank_contains<T>(s: Seq<T>, rank: spec_fn(T) -> Rank, k: Rank, x: T)
    ensures
        with_rank(s, rank, k).contains(x) <==> (s.contains(x) && rank(x) == k),
{
    let hit = has_rank(rank, k);
    if with_rank(s, rank, k).contains(x) {
        let i = choose|i: int| 0 <= i < s.filter(hit).len() && s.filter(hit)[i] == x;
        s.lemma_filter_pred(hit, i);
        s.lemma_filter_contains_rev(hit, x);
    }
    if s.contains(x) && rank(x) == k {
        let i = choose|i: int| 0 <= i < s.len() && s[i] == x;
        s.lemma_filter_contains(hit, i);
    }
}

/// Sorting neither adds nor loses elements.
pub proof fn stable_sort_keeps_elements<T>(
    input: Seq<T>,
    output: Seq<T>,
    rank: spec_fn(T) -> Rank,
    x: T,
)
    requires
        stable_sort_of(input, output, rank),
    ensures
        output.contains(x) <==> input.contains(x),
{
    lemma_with_rank_contains(input, rank, rank(x), x);
    lemma_with_rank_contains(output, rank, rank(x), x);
    assert(with_rank(output, rank, rank(x)) == with_rank(input, rank, rank(x)));
}

/// Sorting keeps the number of elements.
pub proof fn stable_sort_keeps_length<T>(
    input: Seq<T>,
    output: Seq<T>,
    rank: spec_fn(T) -> Rank,
)
    requires
        stable_sort_of(input, output, rank),
    ensures
        output.len() == input.len(),
{
    assert forall|k: Rank| #[trigger] with_rank(output, rank, k).len() == with_rank(
        input,
        rank,
        k,
    ).len() by {
        assert(with_rank(output, rank, k) == with_rank(input, rank, k));
    }
    lemma_same_counts_same_length(input, output, rank);
}

/// Sequences with as many elements of each rank are of one length.
proof fn lemma_same_counts_same_length<T>(a: Seq<T>, b: Seq<T>, rank: spec_fn(T) -> Rank)
    requires
        forall|k: Rank| #[trigger] with_rank(b, rank, k).len() == with_rank(a, rank, k).len(),
    ensures
        a.len() == b.len(),
    decreases a.len(),
{
    if a.len() == 0 {
        if b.len() > 0 {
            let k = rank(b[0]);
            lemma_with_rank_contains(b, rank, k, b[0]);
            assert(with_rank(b, rank, k).len() == with_rank(a, rank, k).len());
            reveal(Seq::filter);
        }
    } else {
        let x = a.last();
        let k = rank(x);
        lemma_with_rank_contains(a, rank, k, x);
        assert(with_rank(b, rank, k).len() == with_rank(a, rank, k).len());
        assert(a[a.len() - 1] == x);
        let y = with_rank(b, rank, k)[0];
        assert(with_rank(b, rank, k).contains(y));
        lemma_with_rank_contains(b, rank, k, y);
        let i = choose|i: int| 0 <= i < b.len() && b[i] == y;
        let l = b.take(i);
        let r = b.subrange(i + 1, b.len() as int);
        let c = l + r;
        assert(b =~= l + seq![y] + r);
        assert forall|j: Rank| #[trigger] with_rank(c, rank, j).len() == with_rank(
            a.drop_last(),
            rank,
            j,
        ).len() by {
            lemma_with_rank_last(a, rank, j);
            lemma_with_rank_add(l + seq![y], r, rank, j);
            lemma_with_rank_add(l, seq![y], rank, j);
            lemma_with_rank_add(l, r, rank, j);
            lemma_with_rank_one(y, rank, j);
            assert(with_rank(b, rank, j).len() == with_rank(a, rank, j).len());
        }
        lemma_same_counts_same_length(a.drop_last(), c, rank);
    }
}

/// A sequence has only one stable sort.
pub proof fn stable_sort_is_unique<T>(
    input: Seq<T>,
    a: Seq<T>,
    b: Seq<T>,
    rank: spec_fn(T) -> Rank,
)
    requires
        stable_sort_of(input, a, rank),
        stable_sort_of(input, b, rank),
    ensures
        a == b,
{
    assert forall|k: Rank| #[trigger] with_rank(a, rank, k) == with_rank(b, rank, k) by {
        assert(with_rank(a, rank, k) == with_rank(input, rank, k));
        assert(with_rank(b, rank, k) == with_rank(input, rank, k));
    }
    lemma_same_ranks_same_sequence(a, b, rank);
}

proof fn lemma_same_ranks_same_sequence<T>(a: Seq<T>, b: Seq<T>, rank: spec_fn(T) -> Rank)
    requires
        ordered(a, rank),
        ordered(b, rank),
        forall|k: Rank| #[trigger] with_rank(a, rank, k) == with_rank(b, rank, k),
    ensures
        a == b,
    decreases a.len(),
{
    if a.len() == 0 {
        if b.len() > 0 {
            let k = rank(b[0]);
            lemma_with_rank_contains(b, rank, k, b[0]);
            lemma_with_rank_contains(a, rank, k, b[0]);
            assert(with_rank(a, rank, k) == with_rank(b, rank, k));
        }
        assert(a =~= b);
    } else {
        let x = a.last();
        let k = rank(x);
        lemma_with_rank_contains(a, rank, k, x);
        lemma_with_rank_contains(b, rank, k, x);
        assert(with_rank(a, rank, k) == with_rank(b, rank, k));
        let y = b.last();
        lemma_with_rank_contains(a, rank, rank(y), y);
        lemma_with_rank_contains(b, rank, rank(y), y);
        assert(with_rank(a, rank, rank(y)) == with_rank(b, rank, rank(y)));
        assert(rank_le(rank(y), k)) by {
            let i = choose|i: int| 0 <= i < a.len() && a[i] == y;
            assert(a[i] == y && a[a.len() - 1] == x);
        }
        assert(rank_le(k, rank(y))) by {
            let i = choose|i: int| 0 <= i < b.len() && b[i] == x;
            assert(b[i] == x && b[b.len() - 1] == y);
        }
        lemma_with_rank_last(a, rank, k);
        lemma_with_rank_last(b, rank, k);
        assert(with_rank(a, rank, k).last() == x);
        assert(with_rank(b, rank, k).last() == y);
        assert forall|j: Rank| #[trigger]
            with_rank(a.drop_last(), rank, j) == with_rank(b.drop_last(), rank, j) by {
            lemma_with_rank_last(a, rank, j);
            lemma_with_rank_last(b, rank, j);
            assert(with_rank(a, rank, j) == with_rank(b, rank, j));
            let wa = with_rank(a.drop_last(), rank, j);
            let wb = with_rank(b.drop_last(), rank, j);
            if j == k {
                assert(wa =~= (wa + seq![x]).drop_last());
                assert(wb =~= (wb + seq![x]).drop_last());
            } else {
                assert(wa + Seq::empty() =~= wa);
                assert(wb + Seq::empty() =~= wb);
            }
        }
        lemma_same_ranks_same_sequence(a.drop_last(), b.drop_last(), rank);
        assert(a =~= a.drop_last().push(x));
        assert(b =~= b.drop_last().push(y));
    }
}

/// What `with_rank` selects does not depend on whether elements are mapped before or after, where
/// the map keeps ranks.
proof fn lemma_with_rank_mapped<T, U>(
    s: Seq<T>,
    f: spec_fn(T) -> U,
    rank: spec_fn(T) -> Rank,
    rank2: spec_fn(U) -> Rank,
    k: Rank,
)
    requires
        forall|x: T| rank2(#[trigger] f(x)) == rank(x),
    ensures
        with_rank(s.map_values(f), rank2, k) == with_rank(s, rank, k).map_values(f),
    decreases s.len(),
{
    reveal(Seq::filter);
    if s.len() > 0 {
        lemma_with_rank_mapped(s.drop_last(), f, rank, rank2, k);
        assert(s.map_values(f).drop_last() =~= s.drop_last().map_values(f));
        assert(s.map_values(f).last() == f(s.last()));
        assert(rank2(f(s.last())) == rank(s.last()));
    }
    assert(with_rank(s.map_values(f), rank2, k) =~= with_rank(s, rank, k).map_values(f));
}

/// A rank-keeping map takes a stable sort to a stable sort.
pub proof fn stable_sort_of_mapped<T, U>(
    input: Seq<T>,
    output: Seq<T>,
    f: spec_fn(T) -> U,
    rank: spec_fn(T) -> Rank,
    rank2: spec_fn(U) -> Rank,
)
    requires
        stable_sort_of(input, output, rank),
        forall|x: T| rank2(#[trigger] f(x)) == rank(x),
    ensures
        stable_sort_of(input.map_values(f), output.map_values(f), rank2),
{
    assert forall|k: Rank| #[trigger]
        with_rank(output.map_values(f), rank2, k) == with_rank(input.map_values(f), rank2, k) by {
        lemma_with_rank_mapped(input, f, rank, rank2, k);
        lemma_with_rank_mapped(output, f, rank, rank2, k);
        assert(with_rank(output, rank, k) == with_rank(input, rank, k));
    }
    assert forall|i: int, j: int|
        #![trigger output.map_values(f)[i], output.map_values(f)[j]]
        0 <= i < j < output.map_values(f).len() implies rank_le(
        rank2(output.map_values(f)[i]),
        rank2(output.map_values(f)[j]),
    ) by {
        assert(rank2(f(output[i])) == rank(output[i]));
        assert(rank2(f(output[j])) == rank(output[j]));
    }
}

/// `s` without the elements that equal the one right before them.
pub open spec fn without_repeats<T>(s: Seq<T>) -> Seq<T>
    decreases s.len(),
{
    if s.len() < 2 {
        s
    } else if s.last() == s[s.len() - 2] {
        without_repeats(s.drop_last())
    } else {
        without_repeats(s.drop_last()).push(s.last())
    }
}

/// Dropping repeats loses no value, keeps the order, and leaves no two equal neighbours.
pub proof fn without_repeats_keeps_values<T>(s: Seq<T>, rank: spec_fn(T) -> Rank)
    ensures
        without_repeats(s).len() <= s.len(),
        s.len() > 0 ==> without_repeats(s).len() > 0 && without_repeats(s).last() == s.last(),
        forall|x: T|
            #![trigger without_repeats(s).contains(x)]
            #![trigger s.contains(x)]
            without_repeats(s).contains(x) <==> s.contains(x),
        ordered(s, rank) ==> ordered(without_repeats(s), rank),
        forall|i: int|
            0 < i < without_repeats(s).len() ==> #[trigger] without_repeats(s)[i]
                != without_repeats(s)[i - 1],
    decreases s.len(),
{
    if s.len() >= 2 {
        let init = s.drop_last();
        without_repeats_keeps_values(init, rank);
        let w = without_repeats(init);
        let r = without_repeats(s);
        assert forall|x: T|
            #![trigger r.contains(x)]
            #![trigger s.contains(x)]
            r.contains(x) <==> s.contains(x) by {
            if s.contains(x) {
                let i = choose|i: int| 0 <= i < s.len() && s[i] == x;
                if i < s.len() - 1 {
                    assert(init[i] == x);
                    assert(init.contains(x));
                    assert(w.contains(x));
                    let j = choose|j: int| 0 <= j < w.len() && w[j] == x;
                    assert(r[j] == x);
                } else if s.last() == s[s.len() - 2] {
                    assert(init.last() == x);
                    assert(r[r.len() - 1] == x);
                } else {
                    assert(r[r.len() - 1] == x);
                }
            }
            if r.contains(x) {
                let j = choose|j: int| 0 <= j < r.len() && r[j] == x;
                if j < w.len() {
                    assert(w[j] == x);
                    assert(w.contains(x));
                    let i = choose|i: int| 0 <= i < init.len() && init[i] == x;
                    assert(s[i] == x);
                } else {
                    assert(s[s.len() - 1] == x);
                }
            }
        }
        if ordered(s, rank) {
            assert(ordered(init, rank));
            assert forall|i: int, j: int|
                #![trigger r[i], r[j]]
                0 <= i < j < r.len() implies rank_le(rank(r[i]), rank(r[j])) by {
                if j < w.len() {
                    assert(w[i] == r[i] && w[j] == r[j]);
                } else {
                    assert(w[i] == r[i]);
                    assert(w.contains(r[i]));
                    assert(init.contains(r[i]));
                    let m = choose|m: int| 0 <= m < init.len() && init[m] == r[i];
                    assert(s[m] == r[i] && s[s.len() - 1] == r[j]);
                }
            }
        }
    }
}

/// A filter that lets less through, behind one that lets more through.
proof fn lemma_filter_filter<T>(s: Seq<T>, wide: spec_fn(T) -> bool, narrow: spec_fn(T) -> bool)
    requires
        forall|i: int| 0 <= i < s.len() && narrow(#[trigger] s[i]) ==> wide(s[i]),
    ensures
        s.filter(wide).filter(narrow) == s.filter(narrow),
    decreases s.len(),
{
    reveal(Seq::filter);
    if s.len() > 0 {
        let init = s.drop_last();
        assert forall|i: int| 0 <= i < init.len() && narrow(#[trigger] init[i]) implies wide(
            init[i],
        ) by {
            assert(init[i] == s[i]);
        }
        lemma_filter_filter(init, wide, narrow);
        assert(s.last() == s[s.len() - 1]);
        if wide(s.last()) {
            assert(init.filter(wide).push(s.last()).drop_last() =~= init.filter(wide));
        }
    }
}

proof fn lemma_filter_ordered<T>(s: Seq<T>, keep: spec_fn(T) -> bool, rank: spec_fn(T) -> Rank)
    requires
        ordered(s, rank),
    ensures
        ordered(s.filter(keep), rank),
    decreases s.len(),
{
    reveal(Seq::filter);
    if s.len() > 0 {
        let init = s.drop_last();
        let part = init.filter(keep);
        let all = s.filter(keep);
        lemma_filter_ordered(init, keep, rank);
        assert forall|i: int, j: int|
            #![trigger all[i], all[j]]
            0 <= i < j < all.len() implies rank_le(rank(all[i]), rank(all[j])) by {
            assert(all[i] == part[i]);
            if j < part.len() {
                assert(all[j] == part[j]);
            } else {
                assert(part.contains(part[i]));
                init.lemma_filter_contains_rev(keep, part[i]);
                let m = choose|m: int| 0 <= m < init.len() && init[m] == part[i];
                assert(s[m] == part[i] && s[s.len() - 1] == all[j]);
            }
        }
    }
}

/// Every element of `a` ranks below every element of `b`.
pub open spec fn ranks_below<T>(a: Seq<T>, b: Seq<T>, rank: spec_fn(T) -> Rank) -> bool {
    forall|x: T, y: T|
        #![trigger a.contains(x), b.contains(y)]
        a.contains(x) && b.contains(y) ==> rank_le(rank(x), rank(y)) && rank(x) != rank(y)
}

/// Where one part of a sequence ranks below the other, sorting sorts each part by itself.
pub proof fn stable_sort_of_parts<T>(
    a: Seq<T>,
    b: Seq<T>,
    sorted_a: Seq<T>,
    sorted: Seq<T>,
    rank: spec_fn(T) -> Rank,
) -> (sorted_b: Seq<T>)
    requires
        ranks_below(a, b, rank),
        stable_sort_of(a, sorted_a, rank),
        stable_sort_of(a + b, sorted, rank),
    ensures
        stable_sort_of(b, sorted_b, rank),
        sorted == sorted_a + sorted_b,
{
    let in_b = |x: T| b.contains(x);
    let sorted_b = sorted.filter(in_b);
    lemma_filter_ordered(sorted, in_b, rank);
    assert forall|k: Rank| #[trigger] with_rank(sorted_b, rank, k) == with_rank(b, rank, k) by {
        let keep = has_rank(rank, k);
        lemma_with_rank_add(a, b, rank, k);
        assert(with_rank(sorted, rank, k) == with_rank(a, rank, k) + with_rank(b, rank, k));
        if exists|y: T| #[trigger] b.contains(y) && rank(y) == k {
            let y = choose|y: T| #[trigger] b.contains(y) && rank(y) == k;
            assert(a.filter(keep) =~= Seq::empty()) by {
                if a.filter(keep).len() > 0 {
                    let x = a.filter(keep)[0];
                    a.lemma_filter_pred(keep, 0);
                    assert(a.filter(keep).contains(x));
                    a.lemma_filter_contains_rev(keep, x);
                    assert(a.contains(x) && b.contains(y));
                }
            }
            assert(with_rank(sorted, rank, k) =~= b.filter(keep));
            assert forall|i: int| 0 <= i < sorted.len() && keep(#[trigger] sorted[i]) implies in_b(
                sorted[i],
            ) by {
                sorted.lemma_filter_contains(keep, i);
                b.lemma_filter_contains_rev(keep, sorted[i]);
            }
            lemma_filter_filter(sorted, in_b, keep);
        } else {
            assert(b.filter(keep) =~= Seq::empty()) by {
                if b.filter(keep).len() > 0 {
                    let x = b.filter(keep)[0];
                    b.lemma_filter_pred(keep, 0);
                    assert(b.filter(keep).contains(x));
                    b.lemma_filter_contains_rev(keep, x);
                }
            }
            assert(sorted_b.filter(keep) =~= Seq::empty()) by {
                if sorted_b.filter(keep).len() > 0 {
                    let x = sorted_b.filter(keep)[0];
                    sorted_b.lemma_filter_pred(keep, 0);
                    assert(sorted_b.filter(keep).contains(x));
                    sorted_b.lemma_filter_contains_rev(keep, x);
                    let i = choose|i: int| 0 <= i < sorted_b.len() && sorted_b[i] == x;
                    sorted.lemma_filter_pred(in_b, i);
                    assert(b.contains(x));
                }
            }
        }
    }
    let joined = sorted_a + sorted_b;
    assert forall|i: int, j: int|
        #![trigger joined[i], joined[j]]
        0 <= i < j < joined.len() implies rank_le(rank(joined[i]), rank(joined[j])) by {
        if j < sorted_a.len() {
            assert(joined[i] == sorted_a[i] && joined[j] == sorted_a[j]);
        } else if i >= sorted_a.len() {
            assert(joined[i] == sorted_b[i - sorted_a.len()]);
            assert(joined[j] == sorted_b[j - sorted_a.len()]);
        } else {
            stable_sort_keeps_elements(a, sorted_a, rank, joined[i]);
            stable_sort_keeps_elements(b, sorted_b, rank, joined[j]);
            assert(sorted_a[i] == joined[i] && sorted_b[j - sorted_a.len()] == joined[j]);
            assert(sorted_a.contains(joined[i]) && sorted_b.contains(joined[j]));
            assert(a.contains(joined[i]) && b.contains(joined[j]));
        }
    }
    assert forall|k: Rank| #[trigger] with_rank(joined, rank, k) == with_rank(a + b, rank, k) by {
        lemma_with_rank_add(a, b, rank, k);
        lemma_with_rank_add(sorted_a, sorted_b, rank, k);
        assert(with_rank(sorted_a, rank, k) == with_rank(a, rank, k));
        assert(with_rank(sorted_b, rank, k) == with_rank(b, rank, k));
    }
    stable_sort_is_unique(a + b, sorted, joined, rank);
    sorted_b
}

/// Where two parts do not meet in equal elements, repeats are dropped in each part by itself.
pub proof fn without_repeats_of_parts<T>(a: Seq<T>, b: Seq<T>)
    requires
        a.len() > 0 && b.len() > 0 ==> a.last() != b[0],
    ensures
        without_repeats(a + b) == without_repeats(a) + without_repeats(b),
    decreases b.len(),
{
    let s = a + b;
    if b.len() == 0 {
        assert(s =~= a);
        assert(without_repeats(a) + b =~= without_repeats(a));
    } else {
        let init = b.drop_last();
        without_repeats_of_parts(a, init);
        assert(s.drop_last() =~= a + init);
        if a.len() == 0 {
            assert(s =~= b);
            assert(without_repeats(a) + without_repeats(b) =~= without_repeats(b));
        } else if b.len() == 1 {
            assert(init =~= Seq::empty());
            assert(s[s.len() - 2] == a.last() && s.last() == b[0]);
            assert(without_repeats(s) =~= without_repeats(a) + without_repeats(b));
        } else {
            assert(s[s.len() - 2] == b[b.len() - 2]);
            assert(without_repeats(s) =~= without_repeats(a) + without_repeats(b));
        }
    }
}

} // verus!
