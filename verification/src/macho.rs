//! The load commands of a Mach-O image, and the extent of the image that they give.
use crate::task::{Kernel, Task};
use vstd::prelude::*;

verus! {

/// The load command that maps a segment.
pub const LC_SEGMENT_64: u32 = 0x19;

/// Size of the Mach-O header, behind which the load commands start.
pub const HEADER_SIZE: usize = 32;

/// A segment of an image.
#[derive(Clone, Copy, Debug)]
pub struct Segment {
    /// The segment is the guard at address zero.
    pub pagezero: bool,
    pub vmaddr: u64,
    pub vmsize: u64,
}

/// A load command: its size, and the segment if it maps one.
#[derive(Clone, Copy, Debug)]
pub struct LoadCommand {
    pub cmdsize: u32,
    pub segment: Option<Segment>,
}

/// The segment whose extent a command adds to the image, if any.
pub open spec fn counted(c: LoadCommand) -> Option<Segment> {
    match c.segment {
        Some(s) => if !s.pagezero && s.vmsize > 0 {
            Some(s)
        } else {
            None
        },
        None => None,
    }
}

/// The lowest address of the counted segments.
pub open spec fn lowest(cmds: Seq<LoadCommand>) -> u64
    decreases cmds.len(),
{
    if cmds.len() == 0 {
        u64::MAX
    } else {
        let before = lowest(cmds.drop_last());
        match counted(cmds.last()) {
            Some(s) => if s.vmaddr < before {
                s.vmaddr
            } else {
                before
            },
            None => before,
        }
    }
}

/// The highest end of the counted segments.
pub open spec fn highest(cmds: Seq<LoadCommand>) -> u64
    decreases cmds.len(),
{
    if cmds.len() == 0 {
        0
    } else {
        let before = highest(cmds.drop_last());
        match counted(cmds.last()) {
            Some(s) => if s.vmaddr.wrapping_add(s.vmsize) > before {
                s.vmaddr.wrapping_add(s.vmsize)
            } else {
                before
            },
            None => before,
        }
    }
}

/// The extent of the image that load commands describe.
pub open spec fn extent(cmds: Seq<LoadCommand>) -> usize {
    if lowest(cmds) != u64::MAX && highest(cmds) > lowest(cmds) {
        (highest(cmds) - lowest(cmds)) as usize
    } else {
        0
    }
}

/// Extent of the image that load commands describe.
pub fn image_extent(cmds: &Vec<LoadCommand>) -> (size: usize)
    ensures
        size == extent(cmds@),
{
    let mut min_vm: u64 = u64::MAX;
    let mut max_end: u64 = 0;
    let mut i: usize = 0;
    assert(cmds@.take(0) =~= Seq::empty());
    while i < cmds.len()
        invariant
            i <= cmds.len(),
            min_vm == lowest(cmds@.take(i as int)),
            max_end == highest(cmds@.take(i as int)),
        decreases cmds.len() - i,
    {
        assert(cmds@.take(i + 1).drop_last() =~= cmds@.take(i as int));
        match cmds[i].segment {
            Some(s) => {
                if !s.pagezero && s.vmsize > 0 {
                    let end = s.vmaddr.wrapping_add(s.vmsize);
                    if s.vmaddr < min_vm {
                        min_vm = s.vmaddr;
                    }
                    if end > max_end {
                        max_end = end;
                    }
                }
            },
            None => {},
        }
        i = i + 1;
    }
    assert(cmds@.take(i as int) =~= cmds@);
    if min_vm != u64::MAX && max_end > min_vm {
        (max_end - min_vm) as usize
    } else {
        0
    }
}

/// Every counted segment lies within the extent, measured from the lowest of them, where no
/// segment runs past the last address.
pub proof fn extent_covers_segments(cmds: Seq<LoadCommand>, i: int)
    requires
        0 <= i < cmds.len(),
        counted(cmds[i]) is Some,
        forall|j: int|
            0 <= j < cmds.len() ==> (counted(#[trigger] cmds[j]) matches Some(s) ==> s.vmaddr
                + s.vmsize <= u64::MAX),
        highest(cmds) - lowest(cmds) <= usize::MAX,
    ensures
        lowest(cmds) <= counted(cmds[i])->Some_0.vmaddr,
        counted(cmds[i])->Some_0.vmaddr + counted(cmds[i])->Some_0.vmsize <= lowest(cmds) + extent(
            cmds,
        ),
{
    lemma_bounds(cmds, i);
}

proof fn lemma_bounds(cmds: Seq<LoadCommand>, i: int)
    requires
        0 <= i < cmds.len(),
        counted(cmds[i]) is Some,
        forall|j: int|
            0 <= j < cmds.len() ==> (counted(#[trigger] cmds[j]) matches Some(s) ==> s.vmaddr
                + s.vmsize <= u64::MAX),
    ensures
        lowest(cmds) <= counted(cmds[i])->Some_0.vmaddr,
        counted(cmds[i])->Some_0.vmaddr + counted(cmds[i])->Some_0.vmsize <= highest(cmds),
    decreases cmds.len(),
{
    let init = cmds.drop_last();
    assert(counted(cmds[cmds.len() - 1]) == counted(cmds.last()));
    if i < cmds.len() - 1 {
        assert forall|j: int| 0 <= j < init.len() implies (counted(#[trigger] init[j]) matches Some(
            s,
        ) ==> s.vmaddr + s.vmsize <= u64::MAX) by {
            assert(init[j] == cmds[j]);
        }
        lemma_bounds(init, i);
    }
}

/// The name of the guard segment.
pub open spec fn pagezero_name() -> Seq<u8> {
    seq![0x5f, 0x5f, 0x50, 0x41, 0x47, 0x45, 0x5a, 0x45, 0x52, 0x4f]
}

/// A segment name that starts with `__PAGEZERO`.
pub open spec fn names_pagezero(name: Option<Seq<u8>>) -> bool {
    name matches Some(n) && n.take(10) == pagezero_name()
}

/// The value read, or zero.
pub open spec fn or_zero(v: Option<u64>) -> u64 {
    match v {
        Some(x) => x,
        None => 0,
    }
}

impl<K: Kernel> Task<K> {
    /// The segment command at `at` may be read as `seg`.
    pub open spec fn may_read_segment(&self, at: usize, seg: Segment) -> bool {
        exists|name: Option<Seq<u8>>, vmaddr: Option<u64>, vmsize: Option<u64>|
            #![trigger self.may_read(at.wrapping_add(8), 16, name), self.may_read_u64(
                at.wrapping_add(24),
                vmaddr,
            ), self.may_read_u64(at.wrapping_add(32), vmsize)]
            {
                &&& self.may_read(at.wrapping_add(8), 16, name)
                &&& self.may_read_u64(at.wrapping_add(24), vmaddr)
                &&& self.may_read_u64(at.wrapping_add(32), vmsize)
                &&& seg == Segment {
                    pagezero: names_pagezero(name),
                    vmaddr: or_zero(vmaddr),
                    vmsize: or_zero(vmsize),
                }
            }
    }

    /// The load command at `at` may be read as `got`: there is none where its kind cannot be read,
    /// or where its size cannot be read or is zero.
    pub open spec fn may_read_command(&self, at: usize, got: Option<LoadCommand>) -> bool {
        exists|cmd: Option<u32>| #[trigger]
            self.may_read_u32(at, cmd) && match cmd {
                None => got is None,
                Some(kind) => exists|size: Option<u32>| #[trigger]
                    self.may_read_u32(at.wrapping_add(4), size) && match size {
                        None => got is None,
                        Some(cmdsize) => if cmdsize == 0 {
                            got is None
                        } else {
                            got matches Some(c) && c.cmdsize == cmdsize && match c.segment {
                                Some(seg) => kind == LC_SEGMENT_64 && self.may_read_segment(at, seg),
                                None => kind != LC_SEGMENT_64,
                            }
                        },
                    },
            }
    }

    /// The load commands of the image at `base`, whose header counts `n`, may be read as `cmds`:
    /// each stands behind the one before, up to the first that cannot be read.
    pub open spec fn may_read_commands(&self, base: usize, n: u32, cmds: Seq<LoadCommand>) -> bool {
        &&& cmds.len() <= n
        &&& forall|i: int|
            0 <= i < cmds.len() ==> self.may_read_command(
                command_addr(base, cmds, i),
                Some(#[trigger] cmds[i]),
            )
        &&& cmds.len() < n ==> self.may_read_command(
            command_addr(base, cmds, cmds.len() as int),
            None,
        )
    }

    /// The extent of the image at `base` may be read as `size`.
    pub open spec fn may_measure(&self, base: usize, size: usize) -> bool {
        exists|ncmds: Option<u32>| #[trigger]
            self.may_read_u32(base.wrapping_add(16), ncmds) && match ncmds {
                None => size == 0,
                Some(n) => exists|cmds: Seq<LoadCommand>| #[trigger]
                    self.may_read_commands(base, n, cmds) && size == extent(cmds),
            }
    }

    fn read_segment(&self, at: usize) -> (seg: Segment)
        ensures
            self.may_read_segment(at, seg),
    {
        let name = self.read(at.wrapping_add(8), 16);
        let vmaddr = self.read_u64(at.wrapping_add(24));
        let vmsize = self.read_u64(at.wrapping_add(32));
        let ghost name_bytes = crate::task::as_bytes(name);
        let pagezero = match name {
            Some(n) => is_pagezero(&n),
            None => false,
        };
        let seg = Segment { pagezero, vmaddr: vmaddr.unwrap_or(0), vmsize: vmsize.unwrap_or(0) };
        assert(self.may_read(at.wrapping_add(8), 16, name_bytes));
        assert(self.may_read_u64(at.wrapping_add(24), vmaddr));
        assert(self.may_read_u64(at.wrapping_add(32), vmsize));
        assert(seg == Segment {
            pagezero: names_pagezero(name_bytes),
            vmaddr: or_zero(vmaddr),
            vmsize: or_zero(vmsize),
        });
        seg
    }

    fn read_command(&self, at: usize) -> (got: Option<LoadCommand>)
        ensures
            self.may_read_command(at, got),
    {
        let cmd = self.read_u32(at);
        match cmd {
            None => {
                assert(self.may_read_u32(at, cmd));
                None
            },
            Some(kind) => {
                let size = self.read_u32(at.wrapping_add(4));
                let cmdsize = size.unwrap_or(0);
                assert(self.may_read_u32(at, cmd));
                assert(self.may_read_u32(at.wrapping_add(4), size));
                if cmdsize == 0 {
                    return None;
                }
                if kind == LC_SEGMENT_64 {
                    Some(LoadCommand { cmdsize, segment: Some(self.read_segment(at)) })
                } else {
                    Some(LoadCommand { cmdsize, segment: None })
                }
            },
        }
    }

    /// Reads the `n` load commands of the image at `base`, as far as they can be read.
    pub fn read_commands(&self, base: usize, n: u32) -> (cmds: Vec<LoadCommand>)
        ensures
            self.may_read_commands(base, n, cmds@),
    {
        let mut cmds: Vec<LoadCommand> = Vec::new();
        let mut at = base.wrapping_add(HEADER_SIZE);
        let mut i: u32 = 0;
        while i < n
            invariant
                i <= n,
                cmds@.len() == i,
                at == command_addr(base, cmds@, i as int),
                forall|j: int|
                    0 <= j < cmds@.len() ==> self.may_read_command(
                        command_addr(base, cmds@, j),
                        Some(#[trigger] cmds@[j]),
                    ),
            decreases n - i,
        {
            let ghost before = cmds@;
            match self.read_command(at) {
                None => {
                    return cmds;
                },
                Some(c) => {
                    cmds.push(c);
                    proof {
                        assert forall|j: int| 0 <= j <= before.len() implies command_addr(
                            base,
                            cmds@,
                            j,
                        ) == command_addr(base, before, j) by {
                            lemma_command_addr(base, before, c, j);
                        }
                        assert forall|j: int|
                            0 <= j < cmds@.len() implies self.may_read_command(
                            command_addr(base, cmds@, j),
                            Some(#[trigger] cmds@[j]),
                        ) by {
                            if j < before.len() {
                                assert(cmds@[j] == before[j]);
                            }
                        }
                    }
                    at = at.wrapping_add(c.cmdsize as usize);
                },
            }
            i = i + 1;
        }
        cmds
    }

    /// Extent of the main image from its Mach-O LC_SEGMENT_64 load commands.
    pub fn compute_image_size(&self, base: usize) -> (size: usize)
        ensures
            self.may_measure(base, size),
    {
        let ncmds = self.read_u32(base.wrapping_add(16));
        assert(self.may_read_u32(base.wrapping_add(16), ncmds));
        match ncmds {
            None => 0,
            Some(n) => {
                let cmds = self.read_commands(base, n);
                assert(self.may_read_commands(base, n, cmds@));
                image_extent(&cmds)
            },
        }
    }
}

/// Where the `i`-th load command of the image at `base` stands.
pub open spec fn command_addr(base: usize, cmds: Seq<LoadCommand>, i: int) -> usize
    decreases i,
{
    if i <= 0 {
        base.wrapping_add(HEADER_SIZE)
    } else {
        command_addr(base, cmds, i - 1).wrapping_add(cmds[i - 1].cmdsize as usize)
    }
}

proof fn lemma_command_addr(base: usize, cmds: Seq<LoadCommand>, c: LoadCommand, i: int)
    requires
        0 <= i <= cmds.len(),
    ensures
        command_addr(base, cmds.push(c), i) == command_addr(base, cmds, i),
    decreases i,
{
    if i > 0 {
        lemma_command_addr(base, cmds, c, i - 1);
    }
}

/// Whether a segment name starts with `__PAGEZERO`.
fn is_pagezero(name: &Vec<u8>) -> (yes: bool)
    requires
        name@.len() == 16,
    ensures
        yes == names_pagezero(Some(name@)),
{
    let yes = name[0] == 0x5f && name[1] == 0x5f && name[2] == 0x50 && name[3] == 0x41 && name[4]
        == 0x47 && name[5] == 0x45 && name[6] == 0x5a && name[7] == 0x45 && name[8] == 0x52
        && name[9] == 0x4f;
    proof {
        let head = name@.take(10);
        if yes {
            assert(head =~= pagezero_name());
        } else if head == pagezero_name() {
            assert(forall|i: int| 0 <= i < 10 ==> #[trigger] name@[i] == head[i]);
            assert(false);
        }
    }
    yes
}

} // verus!
