//! The memory of a task, as the kernel gives it out.
use crate::bytes;
use crate::bytes::le_word;
use crate::region::Region;
use vstd::prelude::*;

verus! {

pub const VM_PROT_READ: i32 = 1;

pub const VM_PROT_WRITE: i32 = 2;

/// The most reports that an enumeration takes: as many as there are addresses to ask about.
pub const MAX_REPORTS: u64 = u64::MAX;

/// A mapping as the kernel reports it.
#[derive(Clone, Copy, Debug)]
pub struct VmRegion {
    pub address: u64,
    pub size: u64,
    pub protection: i32,
}

/// The kernel calls that memory access rests on. Nothing is assumed of the replies: another
/// process may change its memory between any two of them. An error is the kernel's return code.
pub trait Kernel {
    /// The task port of a process.
    fn task_for_pid(&self, pid: i32) -> (reply: Result<u32, i32>);

    /// Where the dynamic loader keeps what it knows of a task's images.
    fn all_image_info_addr(&self, port: u32) -> (reply: Result<u64, i32>);

    /// Up to `size` bytes of a task's memory: those that were copied.
    fn vm_read(&self, port: u32, address: u64, size: u64) -> (reply: Result<Vec<u8>, i32>);

    /// The mapping that contains `address`, or else the first one behind it.
    fn vm_region(&self, port: u32, address: u64) -> (reply: Result<VmRegion, i32>);
}

/// A task and the kernel to ask about it.
pub struct Task<K: Kernel> {
    pub kernel: K,
    pub port: u32,
}

/// The bytes that a read of `size` bytes yields, given the kernel's reply.
pub open spec fn copied(reply: Result<Vec<u8>, i32>, size: int) -> Option<Seq<u8>> {
    match reply {
        Ok(v) => Some(
            if v@.len() <= size {
                v@
            } else {
                v@.take(size)
            },
        ),
        Err(_) => None,
    }
}

/// The bytes that a read of exactly `size` bytes yields, given the kernel's reply.
pub open spec fn filled(reply: Result<Vec<u8>, i32>, size: int) -> Option<Seq<u8>> {
    match reply {
        Ok(v) => if v@.len() == size {
            Some(v@)
        } else {
            None
        },
        Err(_) => None,
    }
}

/// `part`, brought to `size` bytes by zeros.
pub open spec fn zero_filled(part: Seq<u8>, size: int) -> Seq<u8> {
    Seq::new(
        size as nat,
        |i: int|
            if i < part.len() {
                part[i]
            } else {
                0
            },
    )
}

/// Bytes, where there are any.
pub open spec fn as_bytes(o: Option<Vec<u8>>) -> Option<Seq<u8>> {
    match o {
        Some(v) => Some(v@),
        None => None,
    }
}

/// The address that the `i`-th question after a region asks about, given the replies so far.
pub open spec fn asked(replies: Seq<Result<VmRegion, i32>>, i: int) -> int {
    if i == 0 {
        // skips the guard page at zero
        1
    } else {
        replies[i - 1]->Ok_0.address + replies[i - 1]->Ok_0.size
    }
}

/// After this reply there is another question.
pub open spec fn leads_on(reply: Result<VmRegion, i32>) -> bool {
    reply matches Ok(r) && r.size != 0 && r.address + r.size <= u64::MAX
}

/// The readable region that a reply reports, if any.
pub open spec fn reported(reply: Result<VmRegion, i32>) -> Option<Region> {
    match reply {
        Ok(r) => if r.size != 0 && r.protection & VM_PROT_READ != 0 {
            Some(
                Region {
                    addr: r.address as usize,
                    size: r.size as usize,
                    writable: r.protection & VM_PROT_WRITE != 0,
                },
            )
        } else {
            None
        },
        Err(_) => None,
    }
}

/// The readable regions that replies report.
pub open spec fn all_reported(replies: Seq<Result<VmRegion, i32>>) -> Seq<Region> {
    replies.filter_map(|r: Result<VmRegion, i32>| reported(r))
}

impl<K: Kernel> Task<K> {
    /// A read of up to `size` bytes may yield `got`.
    pub open spec fn may_copy(&self, address: u64, size: u64, got: Option<Seq<u8>>) -> bool {
        exists|reply: Result<Vec<u8>, i32>| #[trigger]
            call_ensures(K::vm_read, (&self.kernel, self.port, address, size), reply) && got
                == copied(reply, size as int)
    }

    /// A read of exactly `size` bytes may yield `got`.
    pub open spec fn may_fill(&self, address: u64, size: u64, got: Option<Seq<u8>>) -> bool {
        exists|reply: Result<Vec<u8>, i32>| #[trigger]
            call_ensures(K::vm_read, (&self.kernel, self.port, address, size), reply) && got
                == filled(reply, size as int)
    }

    /// A read of a value of `size` bytes may yield `got`: what could not be copied is zero.
    pub open spec fn may_read(&self, address: usize, size: usize, got: Option<Seq<u8>>) -> bool {
        exists|part: Option<Seq<u8>>| #[trigger]
            self.may_copy(address as u64, size as u64, part) && got == (match part {
                Some(p) => Some(zero_filled(p, size as int)),
                None => None,
            })
    }

    /// A read of a 32-bit word may yield `got`.
    pub open spec fn may_read_u32(&self, address: usize, got: Option<u32>) -> bool {
        exists|b: Option<Seq<u8>>| #[trigger]
            self.may_read(address, 4, b) && got == (match b {
                Some(s) => Some(bytes::le_value(s) as u32),
                None => None,
            })
    }

    /// A read of a 64-bit word may yield `got`.
    pub open spec fn may_read_u64(&self, address: usize, got: Option<u64>) -> bool {
        exists|b: Option<Seq<u8>>| #[trigger]
            self.may_read(address, 8, b) && got == (match b {
                Some(s) => Some(bytes::le_value(s) as u64),
                None => None,
            })
    }

    /// The kernel may give these replies when asked for region after region.
    pub open spec fn may_report(&self, replies: Seq<Result<VmRegion, i32>>) -> bool {
        &&& 0 < replies.len() <= MAX_REPORTS
        &&& forall|i: int|
            0 <= i < replies.len() ==> call_ensures(
                K::vm_region,
                (&self.kernel, self.port, asked(replies, i) as u64),
                #[trigger] replies[i],
            )
        &&& forall|i: int| 0 <= i < replies.len() - 1 ==> leads_on(#[trigger] replies[i])
        &&& leads_on(replies.last()) ==> replies.len() == MAX_REPORTS
    }

    /// Reads exactly `size` bytes.
    pub fn raw_read(&self, address: u64, size: u64) -> (got: Option<Vec<u8>>)
        ensures
            self.may_fill(address, size, as_bytes(got)),
    {
        let reply = self.kernel.vm_read(self.port, address, size);
        match reply {
            Ok(v) => if v.len() as u64 == size {
                Some(v)
            } else {
                None
            },
            Err(_) => None,
        }
    }

    /// Bulk-reads up to `size` bytes; returns however many were readable.
    pub fn read_bytes(&self, address: usize, size: usize) -> (got: Option<Vec<u8>>)
        ensures
            self.may_copy(address as u64, size as u64, as_bytes(got)),
    {
        let reply = self.kernel.vm_read(self.port, address as u64, size as u64);
        match reply {
            Ok(v) => {
                let mut part = v;
                part.truncate(size);
                assert(part@ =~= copied(reply, size as int)->Some_0);
                Some(part)
            },
            Err(_) => None,
        }
    }

    /// Reads a value of `size` bytes; what could not be copied is zero.
    pub fn read(&self, address: usize, size: usize) -> (got: Option<Vec<u8>>)
        ensures
            self.may_read(address, size, as_bytes(got)),
            got matches Some(v) ==> v@.len() == size,
    {
        match self.read_bytes(address, size) {
            Some(part) => {
                let ghost p = part@;
                let mut value = part;
                while value.len() < size
                    invariant
                        p.len() <= value@.len() <= size || value@ == p,
                        p.len() <= size,
                        forall|i: int|
                            0 <= i < value@.len() ==> #[trigger] value@[i] == (if i < p.len() {
                                p[i]
                            } else {
                                0
                            }),
                    decreases size - value@.len(),
                {
                    value.push(0);
                }
                assert(value@ =~= zero_filled(p, size as int));
                Some(value)
            },
            None => None,
        }
    }

    /// Reads a 32-bit word.
    pub fn read_u32(&self, address: usize) -> (got: Option<u32>)
        ensures
            self.may_read_u32(address, got),
    {
        match self.read(address, 4) {
            Some(v) => {
                let w = le_word(v.as_slice(), 0, 4);
                proof {
                    assert(v@.subrange(0, 4) =~= v@);
                    bytes::le_value_fits(v@);
                }
                Some(w as u32)
            },
            None => None,
        }
    }

    /// Reads a 64-bit word.
    pub fn read_u64(&self, address: usize) -> (got: Option<u64>)
        ensures
            self.may_read_u64(address, got),
    {
        match self.read(address, 8) {
            Some(v) => {
                assert(v@.subrange(0, 8) =~= v@);
                Some(le_word(v.as_slice(), 0, 8))
            },
            None => None,
        }
    }

    /// Enumerates all readable regions, in the order in which the kernel reports them.
    ///
    /// Each question asks about the end of the region reported before. The kernel reports the
    /// region at an address or the next one behind it, so that the questions move up; one that does
    /// otherwise is asked on all the same, up to a number of reports that such a kernel never
    /// needs.
    pub fn enumerate_regions(&self) -> (regions: Vec<Region>)
        ensures
            exists|replies: Seq<Result<VmRegion, i32>>| #[trigger]
                self.may_report(replies) && regions@ == all_reported(replies),
    {
        let mut regions: Vec<Region> = Vec::new();
        let mut address: u64 = 1;
        let mut reports: u64 = 0;
        let mut going = true;
        let ghost mut replies: Seq<Result<VmRegion, i32>> = Seq::empty();
        assert(regions@ =~= all_reported(replies));
        while going && reports < MAX_REPORTS
            invariant
                reports <= MAX_REPORTS,
                replies.len() == reports,
                going ==> address == asked(replies, replies.len() as int),
                !going ==> replies.len() > 0 && !leads_on(replies.last()),
                forall|i: int|
                    0 <= i < replies.len() ==> call_ensures(
                        K::vm_region,
                        (&self.kernel, self.port, asked(replies, i) as u64),
                        #[trigger] replies[i],
                    ),
                forall|i: int|
                    0 <= i < replies.len() - (if going {
                        0int
                    } else {
                        1
                    }) ==> leads_on(#[trigger] replies[i]),
                regions@ == all_reported(replies),
            decreases MAX_REPORTS - reports,
        {
            let reply = self.kernel.vm_region(self.port, address);
            let ghost before = replies;
            proof {
                replies = before.push(reply);
                assert(replies.drop_last() =~= before);
                assert(forall|i: int|
                    0 <= i <= before.len() ==> #[trigger] asked(replies, i) == asked(before, i));
            }
            reports = reports + 1;
            going = false;
            match reply {
                Ok(r) => {
                    if r.size != 0 {
                        if r.protection & VM_PROT_READ != 0 {
                            regions.push(
                                Region {
                                    addr: r.address as usize,
                                    size: r.size as usize,
                                    writable: r.protection & VM_PROT_WRITE != 0,
                                },
                            );
                        }
                        match r.address.checked_add(r.size) {
                            Some(next) => {
                                address = next;
                                going = true;
                            },
                            None => {},
                        }
                    }
                },
                Err(_) => {},
            }
            assert(regions@ =~= all_reported(replies));
        }
        assert(self.may_report(replies));
        regions
    }
}

/// The readable regions are exactly those that some reply reports.
pub proof fn regions_are_those_reported(replies: Seq<Result<VmRegion, i32>>, r: Region)
    ensures
        all_reported(replies).contains(r) <==> exists|i: int|
            0 <= i < replies.len() && reported(#[trigger] replies[i]) == Some(r),
    decreases replies.len(),
{
    let all = all_reported(replies);
    if replies.len() > 0 {
        let init = replies.drop_last();
        let some = all_reported(init);
        let n = replies.len() - 1;
        regions_are_those_reported(init, r);
        assert(all == match reported(replies[n]) {
            Some(x) => some.push(x),
            None => some,
        });
        if all.contains(r) {
            let k = choose|k: int| 0 <= k < all.len() && all[k] == r;
            if k < some.len() {
                assert(some[k] == r);
                assert(some.contains(r));
                let i = choose|i: int| 0 <= i < init.len() && reported(#[trigger] init[i]) == Some(r);
                assert(reported(replies[i]) == Some(r));
            } else {
                assert(reported(replies[n]) == Some(r));
            }
        }
        if exists|i: int| 0 <= i < replies.len() && reported(#[trigger] replies[i]) == Some(r) {
            let i = choose|i: int|
                0 <= i < replies.len() && reported(#[trigger] replies[i]) == Some(r);
            if i < n {
                assert(reported(init[i]) == Some(r));
                let k = choose|k: int| 0 <= k < some.len() && some[k] == r;
                assert(all[k] == r);
            } else {
                assert(all[all.len() - 1] == r);
            }
        }
    }
}

/// The replies report the region at the address asked about, or one behind it.
pub open spec fn reports_upward(replies: Seq<Result<VmRegion, i32>>) -> bool {
    forall|i: int|
        0 <= i < replies.len() && leads_on(#[trigger] replies[i]) ==> asked(replies, i)
            < replies[i]->Ok_0.address + replies[i]->Ok_0.size
}

/// The `k`-th question after a region asks further up than the one before.
spec fn moves_up(replies: Seq<Result<VmRegion, i32>>, k: int) -> bool {
    asked(replies, k - 1) < asked(replies, k) <= u64::MAX
}

proof fn lemma_moves_up(replies: Seq<Result<VmRegion, i32>>, i: int, j: int)
    requires
        0 <= i < j < replies.len(),
        forall|k: int| 1 <= k <= j ==> #[trigger] moves_up(replies, k),
    ensures
        1 + i <= asked(replies, i) < asked(replies, j) <= u64::MAX,
    decreases j - i, i,
{
    assert(moves_up(replies, j));
    if i < j - 1 {
        lemma_moves_up(replies, i, j - 1);
    } else if i > 0 {
        lemma_moves_up(replies, i - 1, i);
    }
}

/// Where the kernel reports the region at the address asked about or one behind it, each question
/// asks further up than the ones before.
pub proof fn enumeration_moves_up<K: Kernel>(
    task: &Task<K>,
    replies: Seq<Result<VmRegion, i32>>,
    i: int,
    j: int,
)
    requires
        task.may_report(replies),
        reports_upward(replies),
        0 <= i < j < replies.len(),
    ensures
        1 + i <= asked(replies, i) < asked(replies, j) <= u64::MAX,
{
    assert forall|k: int| 1 <= k <= j implies #[trigger] moves_up(replies, k) by {
        assert(leads_on(replies[k - 1]));
    }
    lemma_moves_up(replies, i, j);
}

/// Where the kernel reports the region at the address asked about or one behind it, the enumeration
/// goes on to the last region there is.
pub proof fn enumeration_is_complete<K: Kernel>(
    task: &Task<K>,
    replies: Seq<Result<VmRegion, i32>>,
)
    requires
        task.may_report(replies),
        reports_upward(replies),
    ensures
        !leads_on(replies.last()),
{
    let n = replies.len() - 1;
    if leads_on(replies.last()) {
        enumeration_moves_up(task, replies, n - 1, n);
        assert(leads_on(replies[n]));
    }
}

} // verus!
