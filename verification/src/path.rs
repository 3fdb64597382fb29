//! Pointer paths and the options of a pointer scan.
use crate::sort::{Rank, Ranked};
use crate::text;
use vstd::prelude::*;
use vstd::string::StringExecFns;

verus! {

/// A path as plain data: the offset of its first location in the main image, then its offsets.
pub type Route = (usize, Seq<usize>);

/// A discovered static pointer chain: `base -> *(base+rva) -> ... (+final)`.
/// The offset-file line is `rva` followed by `rest` (the last element of `rest`
/// is the final offset, applied without a dereference).
#[derive(Debug, PartialEq, Eq, Hash)]
pub struct PointerPath {
    pub rva: usize,
    pub rest: Vec<usize>,
}

impl Clone for PointerPath {
    fn clone(&self) -> (copy: Self)
        ensures
            copy@ == self@,
    {
        let rest = self.rest.clone();
        assert(rest@ =~= self.rest@);
        PointerPath { rva: self.rva, rest }
    }
}

impl View for PointerPath {
    type V = Route;

    open spec fn view(&self) -> Route {
        (self.rva, self.rest@)
    }
}

/// The routes of a list of paths.
pub open spec fn routes(s: Seq<PointerPath>) -> Seq<Route> {
    s.map_values(|p: PointerPath| p@)
}

/// The sum of a list of offsets.
pub open spec fn offset_sum(s: Seq<usize>) -> int
    decreases s.len(),
{
    if s.len() == 0 {
        0
    } else {
        offset_sum(s.drop_last()) + s.last()
    }
}

/// The number of dereferences along a route.
pub open spec fn route_depth(r: Route) -> int {
    if r.1.len() == 0 {
        1
    } else {
        r.1.len() as int
    }
}

/// Routes rank by their depth, then by the sum of their offsets, then by where they start.
pub open spec fn route_rank() -> spec_fn(Route) -> Rank {
    |r: Route| (route_depth(r), offset_sum(r.1), r.0 as int)
}

/// `n` zeros, or none if `n` is negative.
pub open spec fn zeros(n: int) -> Seq<char> {
    Seq::new(
        if n > 0 {
            n as nat
        } else {
            0
        },
        |i: int| '0',
    )
}

/// An `rva` in hexadecimal, of at least eight digits.
pub open spec fn rva_text(rva: nat) -> Seq<char> {
    zeros(8 - text::hex(rva).len()) + text::hex(rva)
}

/// The offset-file line of a route.
pub open spec fn line_of(r: Route) -> Seq<char>
    decreases r.1.len(),
{
    if r.1.len() == 0 {
        rva_text(r.0 as nat)
    } else {
        line_of((r.0, r.1.drop_last())) + seq![' '] + text::hex(r.1.last() as nat)
    }
}

impl PointerPath {
    /// Format as an offset-file line, e.g. "04DD0708 8 3F0 0".
    pub fn to_line(&self) -> (line: String)
        ensures
            line@ == line_of(self@),
    {
        proof {
            reveal_strlit("0");
            reveal_strlit(" ");
        }
        let mut number = String::new();
        let mut count = text::push_digits(&mut number, self.rva, 16);
        let ghost n = text::hex(self.rva as nat).len();
        let mut line = String::new();
        assert(line@ =~= zeros(0));
        while count < 8
            invariant
                n <= count,
                count <= 8 || count == n,
                line@ == zeros(count - n),
                "0"@ == seq!['0'],
            decreases 8 - count,
        {
            line.append("0");
            count = count + 1;
            assert(line@ =~= zeros(count - n));
        }
        line.append(number.as_str());
        let mut i: usize = 0;
        assert(number@ =~= text::hex(self.rva as nat));
        assert(zeros(count - n) =~= zeros(8 - n));
        assert(self.rest@.take(0) =~= Seq::empty());
        while i < self.rest.len()
            invariant
                i <= self.rest.len(),
                " "@ == seq![' '],
                line@ == line_of((self.rva, self.rest@.take(i as int))),
            decreases self.rest.len() - i,
        {
            assert(self.rest@.take(i + 1).drop_last() =~= self.rest@.take(i as int));
            line.append(" ");
            text::push_hex(&mut line, self.rest[i]);
            i = i + 1;
        }
        assert(self.rest@.take(i as int) =~= self.rest@);
        line
    }

    /// Number of dereferences (chain length).
    pub fn depth(&self) -> (d: usize)
        ensures
            d == route_depth(self@),
    {
        if self.rest.len() == 0 {
            1
        } else {
            self.rest.len()
        }
    }

    /// The sum of the offsets, which may exceed what one address holds.
    fn rest_sum(&self) -> (sum: u128)
        ensures
            sum == offset_sum(self.rest@),
    {
        let mut sum: u128 = 0;
        let mut i: usize = 0;
        assert(self.rest@.take(0) =~= Seq::empty());
        while i < self.rest.len()
            invariant
                i <= self.rest.len(),
                sum == offset_sum(self.rest@.take(i as int)),
                sum <= i * 0xffff_ffff_ffff_ffff,
            decreases self.rest.len() - i,
        {
            assert(self.rest@.take(i + 1).drop_last() =~= self.rest@.take(i as int));
            let off = self.rest[i];
            assert(sum + off <= u128::MAX) by (nonlinear_arith)
                requires
                    sum <= i * 0xffff_ffff_ffff_ffff,
                    i <= 0xffff_ffff_ffff_ffff,
                    off <= 0xffff_ffff_ffff_ffff,
            ;
            sum = sum + off as u128;
            i = i + 1;
        }
        assert(self.rest@.take(i as int) =~= self.rest@);
        sum
    }

    /// Whether two paths are the same.
    pub(crate) fn same(&self, other: &PointerPath) -> (yes: bool)
        ensures
            yes == (self@ == other@),
    {
        if self.rva != other.rva || self.rest.len() != other.rest.len() {
            return false;
        }
        let mut i: usize = 0;
        while i < self.rest.len()
            invariant
                i <= self.rest.len(),
                self.rest.len() == other.rest.len(),
                forall|j: int| 0 <= j < i ==> self.rest@[j] == other.rest@[j],
            decreases self.rest.len() - i,
        {
            if self.rest[i] != other.rest[i] {
                return false;
            }
            i = i + 1;
        }
        assert(self.rest@ =~= other.rest@);
        true
    }
}

impl Ranked for PointerPath {
    open spec fn rank(&self) -> Rank {
        route_rank()(self@)
    }

    fn not_after(&self, other: &Self) -> (yes: bool) {
        let d = self.depth();
        let od = other.depth();
        if d != od {
            return d < od;
        }
        let s = self.rest_sum();
        let os = other.rest_sum();
        if s != os {
            return s < os;
        }
        self.rva <= other.rva
    }
}

/// Options bounding the reverse pointer scan.
#[derive(Clone, Copy)]
pub struct ScanOpts {
    /// Max value of any intermediate/final offset considered.
    pub max_offset: usize,
    /// Max number of dereferences (rva counts as 1).
    pub max_depth: usize,
    /// Cap on emitted paths.
    pub max_results: usize,
    /// Cap on graph nodes explored, over all depths (guards against explosion).
    pub node_budget: usize,
}

impl Default for ScanOpts {
    fn default() -> (opts: Self)
        ensures
            opts.max_offset == 0x800,
            opts.max_depth == 8,
            opts.max_results == 256,
            opts.node_budget == 3_000_000,
    {
        ScanOpts {
            max_offset: 0x800,
            // Deepest known chain (track_info) is 7 dereferences; allow headroom.
            max_depth: 8,
            max_results: 256,
            node_budget: 3_000_000,
        }
    }
}

} // verus!
