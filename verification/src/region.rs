//! Mapped regions of the target process, and its main image.
use crate::meaning;
use crate::sort;
use crate::sort::{stable_sort, Rank, Ranked};
use vstd::prelude::*;

verus! {

/// A mapped, readable region of the target process.
#[derive(Clone, Copy, Debug)]
pub struct Region {
    pub addr: usize,
    pub size: usize,
    /// Currently writable (heap / __DATA): where live object pointers live.
    pub writable: bool,
}

impl Region {
    /// The first address past the region, or the last address there is.
    pub open spec fn end_addr(self) -> usize {
        self.addr.saturating_add(self.size)
    }

    /// Whether an address lies in the region.
    pub open spec fn holds(self, addr: usize) -> bool {
        self.addr <= addr && addr < self.end_addr()
    }

    pub fn end(&self) -> (end: usize)
        ensures
            end == self.end_addr(),
            self.addr + self.size <= usize::MAX ==> end == self.addr + self.size,
            self.addr + self.size > usize::MAX ==> end == usize::MAX,
    {
        self.addr.saturating_add(self.size)
    }

    pub fn contains(&self, addr: usize) -> (yes: bool)
        ensures
            yes == self.holds(addr),
            yes == (self.addr <= addr && addr < self.addr + self.size && addr < usize::MAX),
    {
        addr >= self.addr && addr < self.end()
    }
}

/// The main executable image: the addresses `[base, base + size)`.
#[derive(Clone, Copy, Debug)]
pub struct Image {
    pub base: usize,
    pub size: usize,
}

impl Image {
    /// Whether an address lies in the image.
    pub open spec fn holds(self, addr: usize) -> bool {
        self.base <= addr && addr < self.base + self.size
    }

    pub fn contains(&self, addr: usize) -> (yes: bool)
        ensures
            yes == self.holds(addr),
            yes == (self.base <= addr && addr < self.base + self.size),
    {
        addr >= self.base && addr - self.base < self.size
    }
}

impl Ranked for Region {
    open spec fn rank(&self) -> Rank {
        (self.addr as int, 0, 0)
    }

    fn not_after(&self, other: &Self) -> (yes: bool) {
        self.addr <= other.addr
    }
}

/// An address lies in one of the regions.
pub open spec fn readable(regions: Seq<Region>, addr: usize) -> bool {
    exists|i: int| 0 <= i < regions.len() && (#[trigger] regions[i]).holds(addr)
}

/// Which addresses are readable does not depend on the order of the regions.
pub proof fn sorting_keeps_readable(input: Seq<Region>, output: Seq<Region>, addr: usize)
    requires
        sort::stable_sort_of(input, output, sort::own_rank()),
    ensures
        readable(output, addr) == readable(input, addr),
{
    if readable(input, addr) {
        let i = choose|i: int| 0 <= i < input.len() && (#[trigger] input[i]).holds(addr);
        sort::stable_sort_keeps_elements(input, output, sort::own_rank(), input[i]);
        assert(input.contains(input[i]));
    }
    if readable(output, addr) {
        let i = choose|i: int| 0 <= i < output.len() && (#[trigger] output[i]).holds(addr);
        sort::stable_sort_keeps_elements(input, output, sort::own_rank(), output[i]);
        assert(output.contains(output[i]));
    }
}

/// Readable regions, sorted by address.
pub struct RegionTable {
    regions: Vec<Region>,
    /// For each region, the highest end of the regions up to it.
    reach: Vec<usize>,
}

impl View for RegionTable {
    type V = Seq<Region>;

    closed spec fn view(&self) -> Seq<Region> {
        self.regions@
    }
}

/// `end` is the highest end of the regions up to the `i`-th.
spec fn is_reach(regions: Seq<Region>, i: int, end: usize) -> bool {
    &&& forall|j: int| 0 <= j <= i ==> (#[trigger] regions[j]).end_addr() <= end
    &&& exists|j: int| 0 <= j <= i && (#[trigger] regions[j]).end_addr() == end
}

impl RegionTable {
    #[verifier::type_invariant]
    spec fn sorted(self) -> bool {
        &&& sort::ordered(self.regions@, sort::own_rank())
        &&& self.reach@.len() == self.regions@.len()
        &&& forall|i: int|
            0 <= i < self.reach@.len() ==> is_reach(self.regions@, i, #[trigger] self.reach@[i])
    }

    /// Sorts regions into a table; those of one address keep their order.
    pub fn new(regions: Vec<Region>) -> (table: RegionTable)
        ensures
            sort::stable_sort_of(regions@, table@, sort::own_rank()),
    {
        let sorted = stable_sort(regions);
        let mut reach: Vec<usize> = Vec::new();
        let mut i: usize = 0;
        while i < sorted.len()
            invariant
                i <= sorted@.len(),
                reach@.len() == i,
                forall|j: int|
                    0 <= j < reach@.len() ==> is_reach(sorted@, j, #[trigger] reach@[j]),
            decreases sorted.len() - i,
        {
            let end = sorted[i].end();
            let so_far = if i > 0 && reach[i - 1] > end {
                reach[i - 1]
            } else {
                end
            };
            proof {
                if i > 0 {
                    assert(is_reach(sorted@, i - 1, reach@[i - 1]));
                }
                if so_far == end {
                    assert(sorted@[i as int].end_addr() == so_far);
                }
                assert(is_reach(sorted@, i as int, so_far));
            }
            reach.push(so_far);
            i = i + 1;
        }
        RegionTable { regions: sorted, reach }
    }

    /// The regions, by address.
    pub fn regions(&self) -> (regions: &Vec<Region>)
        ensures
            regions@ == self@,
    {
        &self.regions
    }

    /// Whether an address lies in one of the regions.
    pub fn is_readable(&self, addr: usize) -> (yes: bool)
        ensures
            yes == readable(self@, addr),
            yes <==> exists|i: int|
                0 <= i < self@.len() && (#[trigger] self@[i]).addr <= addr && addr < self@[i].addr
                    + self@[i].size && addr < usize::MAX,
    {
        proof {
            use_type_invariant(self);
            meaning::readable_addresses_lie_in_a_region(self@, addr);
        }
        let n = self.regions.len();
        // Cheap bounds reject first (most words aren't pointers), then
        // confirm it lands in an actual region.
        if n == 0 {
            return false;
        }
        assert(is_reach(self.regions@, n - 1, self.reach@[n - 1]));
        if addr < self.regions[0].addr || addr >= self.reach[n - 1] {
            return false;
        }
        let mut lo: usize = 0;
        let mut hi: usize = n;
        while lo < hi
            invariant
                lo <= hi <= n == self.regions@.len(),
                sort::ordered(self.regions@, sort::own_rank()),
                forall|i: int| 0 <= i < lo ==> (#[trigger] self.regions@[i]).addr <= addr,
                forall|i: int| hi <= i < n ==> (#[trigger] self.regions@[i]).addr > addr,
            decreases hi - lo,
        {
            let mid = lo + (hi - lo) / 2;
            let start = self.regions[mid].addr;
            assert(forall|i: int| 0 <= i < mid ==> (#[trigger] self.regions@[i]).addr <= start);
            assert(forall|i: int| mid < i < n ==> (#[trigger] self.regions@[i]).addr >= start);
            if start <= addr {
                lo = mid + 1;
            } else {
                hi = mid;
            }
        }
        if lo == 0 {
            return false;
        }
        assert(is_reach(self.regions@, lo - 1, self.reach@[lo - 1]));
        let yes = self.reach[lo - 1] > addr;
        proof {
            if yes {
                let j = choose|j: int|
                    0 <= j <= lo - 1 && (#[trigger] self.regions@[j]).end_addr() == self.reach@[lo
                        - 1];
                assert(self.regions@[j].holds(addr));
            }
        }
        yes
    }
}

} // verus!
