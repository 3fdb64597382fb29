//! Following a pointer path through live memory.
use crate::path;
use crate::path::{PointerPath, Route};
use crate::procmem::ProcMem;
use crate::task::Kernel;
use vstd::prelude::*;

verus! {

/// The offset that is applied behind the last dereference of a route.
pub open spec fn final_offset(r: Route) -> usize {
    if r.1.len() == 0 {
        0
    } else {
        r.1.last()
    }
}

impl<K: Kernel> ProcMem<K> {
    /// The location of the `i`-th dereference of a route, given the pointers read before it.
    pub open spec fn hop_addr(&self, r: Route, hops: Seq<u64>, i: int) -> usize {
        if i == 0 {
            self.base.wrapping_add(r.0)
        } else {
            (hops[i - 1] as usize).wrapping_add(r.1[i - 1])
        }
    }

    /// Following a route may read the pointers `hops`, one at each location in turn.
    pub open spec fn may_follow(&self, r: Route, hops: Seq<u64>) -> bool {
        &&& hops.len() <= path::route_depth(r)
        &&& forall|i: int|
            0 <= i < hops.len() ==> self.task.may_read_u64(
                self.hop_addr(r, hops, i),
                Some(#[trigger] hops[i]),
            )
    }

    /// Following a route may end at `addr`, or nowhere, where a location cannot be read.
    pub open spec fn may_resolve(&self, r: Route, addr: Option<usize>) -> bool {
        exists|hops: Seq<u64>| #[trigger]
            self.may_follow(r, hops) && match addr {
                Some(a) => hops.len() == path::route_depth(r) && a == (
                hops.last() as usize).wrapping_add(final_offset(r)),
                None => hops.len() < path::route_depth(r) && self.task.may_read_u64(
                    self.hop_addr(r, hops, hops.len() as int),
                    None,
                ),
            }
    }
}

impl PointerPath {
    /// Resolve to the final value address (before reading the value itself).
    pub fn resolve_addr<K: Kernel>(&self, mem: &ProcMem<K>) -> (addr: Option<usize>)
        ensures
            mem.may_resolve(self@, addr),
    {
        let depth = self.depth();
        let ghost r = self@;
        let ghost mut hops: Seq<u64> = Seq::empty();
        let mut at = mem.base.wrapping_add(self.rva);
        let mut a: usize = 0;
        let mut i: usize = 0;
        while i < depth
            invariant
                i <= depth,
                depth == path::route_depth(r),
                r == self@,
                hops.len() == i,
                at == mem.hop_addr(r, hops, i as int) || i == depth,
                i > 0 ==> a == hops.last() as usize,
                forall|j: int|
                    0 <= j < hops.len() ==> mem.task.may_read_u64(
                        mem.hop_addr(r, hops, j),
                        Some(#[trigger] hops[j]),
                    ),
            decreases depth - i,
        {
            let word = mem.read_u64(at);
            match word {
                None => {
                    assert(mem.may_follow(r, hops));
                    return None;
                },
                Some(v) => {
                    let ghost before = hops;
                    proof {
                        hops = before.push(v);
                        assert forall|j: int|
                            0 <= j < hops.len() implies mem.task.may_read_u64(
                            mem.hop_addr(r, hops, j),
                            Some(#[trigger] hops[j]),
                        ) by {
                            assert(mem.hop_addr(r, hops, j) == mem.hop_addr(r, before, j));
                            if j < before.len() {
                                assert(hops[j] == before[j]);
                            }
                        }
                    }
                    a = v as usize;
                },
            }
            i = i + 1;
            if i < depth {
                at = a.wrapping_add(self.rest[i - 1]);
            }
        }
        let last = if self.rest.len() == 0 {
            0
        } else {
            self.rest[self.rest.len() - 1]
        };
        assert(mem.may_follow(r, hops));
        Some(a.wrapping_add(last))
    }
}

} // verus!
