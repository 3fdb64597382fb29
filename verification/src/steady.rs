//! What holds as long as the system does not change.
use crate::bytes;
use crate::chunks;
use crate::macho;
use crate::macho::{LoadCommand, Segment};
use crate::pointers::Pointer;
use crate::process;
use crate::process::Process;
use crate::procmem;
use crate::procmem::ProcMem;
use crate::region::Region;
use crate::scan;
use crate::snapshot::Snapshot;
use crate::sort;
use crate::task;
use crate::task::{Kernel, Task, VmRegion};
use crate::text;
use vstd::prelude::*;

verus! {

/// Two replies to a read hold the same bytes, or are both refusals.
pub open spec fn same_reply(a: Result<Vec<u8>, i32>, b: Result<Vec<u8>, i32>) -> bool {
    match (a, b) {
        (Ok(v), Ok(w)) => v@ == w@,
        (Err(_), Err(_)) => true,
        _ => false,
    }
}

/// The system does not change: to the same question after a task, its images, its memory or its
/// regions, the kernel always gives the same reply.
pub open spec fn unchanging<K: Kernel>(kernel: K) -> bool {
    &&& forall|pid: i32, a: Result<u32, i32>, b: Result<u32, i32>|
        #![trigger call_ensures(K::task_for_pid, (&kernel, pid), a), call_ensures(
            K::task_for_pid,
            (&kernel, pid),
            b,
        )]
        call_ensures(K::task_for_pid, (&kernel, pid), a) && call_ensures(
            K::task_for_pid,
            (&kernel, pid),
            b,
        ) ==> a == b
    &&& forall|port: u32, a: Result<u64, i32>, b: Result<u64, i32>|
        #![trigger call_ensures(K::all_image_info_addr, (&kernel, port), a), call_ensures(
            K::all_image_info_addr,
            (&kernel, port),
            b,
        )]
        call_ensures(K::all_image_info_addr, (&kernel, port), a) && call_ensures(
            K::all_image_info_addr,
            (&kernel, port),
            b,
        ) ==> a == b
    &&& forall|
        port: u32,
        address: u64,
        size: u64,
        a: Result<Vec<u8>, i32>,
        b: Result<Vec<u8>, i32>,
    |
        #![trigger call_ensures(K::vm_read, (&kernel, port, address, size), a), call_ensures(
            K::vm_read,
            (&kernel, port, address, size),
            b,
        )]
        call_ensures(K::vm_read, (&kernel, port, address, size), a) && call_ensures(
            K::vm_read,
            (&kernel, port, address, size),
            b,
        ) ==> same_reply(a, b)
    &&& forall|port: u32, address: u64, a: Result<VmRegion, i32>, b: Result<VmRegion, i32>|
        #![trigger call_ensures(K::vm_region, (&kernel, port, address), a), call_ensures(
            K::vm_region,
            (&kernel, port, address),
            b,
        )]
        call_ensures(K::vm_region, (&kernel, port, address), a) && call_ensures(
            K::vm_region,
            (&kernel, port, address),
            b,
        ) ==> a == b
}

proof fn lemma_fill<K: Kernel>(
    task: Task<K>,
    address: u64,
    size: u64,
    a: Option<Seq<u8>>,
    b: Option<Seq<u8>>,
)
    requires
        unchanging(task.kernel),
        task.may_fill(address, size, a),
        task.may_fill(address, size, b),
    ensures
        a == b,
{
}

proof fn lemma_read<K: Kernel>(
    task: Task<K>,
    address: usize,
    size: usize,
    a: Option<Seq<u8>>,
    b: Option<Seq<u8>>,
)
    requires
        unchanging(task.kernel),
        task.may_read(address, size, a),
        task.may_read(address, size, b),
    ensures
        a == b,
{
}

proof fn lemma_read_u32<K: Kernel>(
    task: Task<K>,
    address: usize,
    a: Option<u32>,
    b: Option<u32>,
)
    requires
        unchanging(task.kernel),
        task.may_read_u32(address, a),
        task.may_read_u32(address, b),
    ensures
        a == b,
{
    let x = choose|x: Option<Seq<u8>>| #[trigger]
        task.may_read(address, 4, x) && a == (match x {
            Some(s) => Some(bytes::le_value(s) as u32),
            None => None,
        });
    let y = choose|y: Option<Seq<u8>>| #[trigger]
        task.may_read(address, 4, y) && b == (match y {
            Some(s) => Some(bytes::le_value(s) as u32),
            None => None,
        });
    lemma_read(task, address, 4, x, y);
}

/// What a read of a word yields stays the same.
pub proof fn words_stay<K: Kernel>(task: Task<K>, address: usize, a: Option<u64>, b: Option<u64>)
    requires
        unchanging(task.kernel),
        task.may_read_u64(address, a),
        task.may_read_u64(address, b),
    ensures
        a == b,
{
    let x = choose|x: Option<Seq<u8>>| #[trigger]
        task.may_read(address, 8, x) && a == (match x {
            Some(s) => Some(bytes::le_value(s) as u64),
            None => None,
        });
    let y = choose|y: Option<Seq<u8>>| #[trigger]
        task.may_read(address, 8, y) && b == (match y {
            Some(s) => Some(bytes::le_value(s) as u64),
            None => None,
        });
    lemma_read(task, address, 8, x, y);
}

proof fn lemma_segment<K: Kernel>(task: Task<K>, at: usize, a: Segment, b: Segment)
    requires
        unchanging(task.kernel),
        task.may_read_segment(at, a),
        task.may_read_segment(at, b),
    ensures
        a == b,
{
    let (n, v, z) = choose|n: Option<Seq<u8>>, v: Option<u64>, z: Option<u64>|
        #![trigger task.may_read(at.wrapping_add(8), 16, n), task.may_read_u64(
            at.wrapping_add(24),
            v,
        ), task.may_read_u64(at.wrapping_add(32), z)]
        {
            &&& task.may_read(at.wrapping_add(8), 16, n)
            &&& task.may_read_u64(at.wrapping_add(24), v)
            &&& task.may_read_u64(at.wrapping_add(32), z)
            &&& a == Segment {
                pagezero: macho::names_pagezero(n),
                vmaddr: macho::or_zero(v),
                vmsize: macho::or_zero(z),
            }
        };
    let (n2, v2, z2) = choose|n: Option<Seq<u8>>, v: Option<u64>, z: Option<u64>|
        #![trigger task.may_read(at.wrapping_add(8), 16, n), task.may_read_u64(
            at.wrapping_add(24),
            v,
        ), task.may_read_u64(at.wrapping_add(32), z)]
        {
            &&& task.may_read(at.wrapping_add(8), 16, n)
            &&& task.may_read_u64(at.wrapping_add(24), v)
            &&& task.may_read_u64(at.wrapping_add(32), z)
            &&& b == Segment {
                pagezero: macho::names_pagezero(n),
                vmaddr: macho::or_zero(v),
                vmsize: macho::or_zero(z),
            }
        };
    lemma_read(task, at.wrapping_add(8), 16, n, n2);
    words_stay(task, at.wrapping_add(24), v, v2);
    words_stay(task, at.wrapping_add(32), z, z2);
}

/// The load command at `at` is read as `got` where its kind is `kind` and its size `size`.
pub open spec fn reads_as<K: Kernel>(
    task: Task<K>,
    at: usize,
    kind: Option<u32>,
    size: Option<u32>,
    got: Option<LoadCommand>,
) -> bool {
    match (kind, size) {
        (Some(kind), Some(cmdsize)) => if cmdsize == 0 {
            got is None
        } else {
            got matches Some(c) && c.cmdsize == cmdsize && match c.segment {
                Some(seg) => kind == macho::LC_SEGMENT_64 && task.may_read_segment(at, seg),
                None => kind != macho::LC_SEGMENT_64,
            }
        },
        _ => got is None,
    }
}

pub(crate) proof fn lemma_command_parts<K: Kernel>(
    task: Task<K>,
    at: usize,
    got: Option<LoadCommand>,
) -> (r: (Option<u32>, Option<u32>))
    requires
        task.may_read_command(at, got),
    ensures
        task.may_read_u32(at, r.0),
        r.0 is Some ==> task.may_read_u32(at.wrapping_add(4), r.1),
        reads_as(task, at, r.0, r.1, got),
{
    let cmd = choose|cmd: Option<u32>| #[trigger]
        task.may_read_u32(at, cmd) && match cmd {
            None => got is None,
            Some(kind) => exists|size: Option<u32>| #[trigger]
                task.may_read_u32(at.wrapping_add(4), size) && reads_as(
                    task,
                    at,
                    Some(kind),
                    size,
                    got,
                ),
        };
    let size = choose|size: Option<u32>| #[trigger]
        task.may_read_u32(at.wrapping_add(4), size) && reads_as(task, at, cmd, size, got);
    (cmd, size)
}

proof fn lemma_command<K: Kernel>(
    task: Task<K>,
    at: usize,
    a: Option<LoadCommand>,
    b: Option<LoadCommand>,
)
    requires
        unchanging(task.kernel),
        task.may_read_command(at, a),
        task.may_read_command(at, b),
    ensures
        a == b,
{
    let (kind, size) = lemma_command_parts(task, at, a);
    let (kind2, size2) = lemma_command_parts(task, at, b);
    lemma_read_u32(task, at, kind, kind2);
    if kind is Some {
        lemma_read_u32(task, at.wrapping_add(4), size, size2);
        if a is Some && a->Some_0.segment is Some && b->Some_0.segment is Some {
            lemma_segment(task, at, a->Some_0.segment->Some_0, b->Some_0.segment->Some_0);
        }
    }
}

/// Lists of load commands agree as far as both reach, and so does where the commands stand.
proof fn lemma_commands_agree<K: Kernel>(
    task: Task<K>,
    base: usize,
    n: u32,
    a: Seq<LoadCommand>,
    b: Seq<LoadCommand>,
    k: int,
)
    requires
        unchanging(task.kernel),
        task.may_read_commands(base, n, a),
        task.may_read_commands(base, n, b),
        0 <= k <= a.len(),
        k <= b.len(),
    ensures
        a.take(k) == b.take(k),
        macho::command_addr(base, a, k) == macho::command_addr(base, b, k),
    decreases k,
{
    if k == 0 {
        assert(a.take(0) =~= b.take(0));
    } else {
        lemma_commands_agree(task, base, n, a, b, k - 1);
        lemma_command(
            task,
            macho::command_addr(base, a, k - 1),
            Some(a[k - 1]),
            Some(b[k - 1]),
        );
        assert(a.take(k) =~= a.take(k - 1).push(a[k - 1]));
        assert(b.take(k) =~= b.take(k - 1).push(b[k - 1]));
    }
}

proof fn lemma_commands<K: Kernel>(
    task: Task<K>,
    base: usize,
    n: u32,
    a: Seq<LoadCommand>,
    b: Seq<LoadCommand>,
)
    requires
        unchanging(task.kernel),
        task.may_read_commands(base, n, a),
        task.may_read_commands(base, n, b),
    ensures
        a == b,
{
    let k = if a.len() < b.len() {
        a.len() as int
    } else {
        b.len() as int
    };
    lemma_commands_agree(task, base, n, a, b, k);
    if a.len() < b.len() {
        lemma_command(task, macho::command_addr(base, a, k), None, Some(b[k]));
    } else if b.len() < a.len() {
        lemma_command(task, macho::command_addr(base, a, k), Some(a[k]), None);
    }
    assert(a.take(k) =~= a);
    assert(b.take(k) =~= b);
}

/// The extent of an image stays the same.
pub proof fn extents_stay<K: Kernel>(task: Task<K>, base: usize, a: usize, b: usize)
    requires
        unchanging(task.kernel),
        task.may_measure(base, a),
        task.may_measure(base, b),
    ensures
        a == b,
{
    let n = choose|n: Option<u32>| #[trigger]
        task.may_read_u32(base.wrapping_add(16), n) && match n {
            None => a == 0,
            Some(count) => exists|cmds: Seq<LoadCommand>| #[trigger]
                task.may_read_commands(base, count, cmds) && a == macho::extent(cmds),
        };
    let n2 = choose|n: Option<u32>| #[trigger]
        task.may_read_u32(base.wrapping_add(16), n) && match n {
            None => b == 0,
            Some(count) => exists|cmds: Seq<LoadCommand>| #[trigger]
                task.may_read_commands(base, count, cmds) && b == macho::extent(cmds),
        };
    lemma_read_u32(task, base.wrapping_add(16), n, n2);
    if n is Some {
        let count = n->Some_0;
        let x = choose|cmds: Seq<LoadCommand>| #[trigger]
            task.may_read_commands(base, count, cmds) && a == macho::extent(cmds);
        let y = choose|cmds: Seq<LoadCommand>| #[trigger]
            task.may_read_commands(base, count, cmds) && b == macho::extent(cmds);
        lemma_commands(task, base, count, x, y);
    }
}

proof fn lemma_load_first<K: Kernel>(
    task: Task<K>,
    array: u64,
    a: Result<usize, Seq<char>>,
    b: Result<usize, Seq<char>>,
)
    requires
        unchanging(task.kernel),
        task.may_load_first(array, a),
        task.may_load_first(array, b),
    ensures
        a == b,
{
    let x = choose|x: Option<Seq<u8>>| #[trigger]
        task.may_fill(array, 8, x) && a == (match x {
            None => Err::<usize, Seq<char>>("Failed to read dyld image info array"@),
            Some(f) => Ok(bytes::le_value(f) as u64 as usize),
        });
    let y = choose|y: Option<Seq<u8>>| #[trigger]
        task.may_fill(array, 8, y) && b == (match y {
            None => Err::<usize, Seq<char>>("Failed to read dyld image info array"@),
            Some(f) => Ok(bytes::le_value(f) as u64 as usize),
        });
    lemma_fill(task, array, 8, x, y);
}

proof fn lemma_load_from<K: Kernel>(
    task: Task<K>,
    addr: u64,
    a: Result<usize, Seq<char>>,
    b: Result<usize, Seq<char>>,
)
    requires
        unchanging(task.kernel),
        task.may_load_from(addr, a),
        task.may_load_from(addr, b),
    ensures
        a == b,
{
    let x = choose|x: Option<Seq<u8>>| #[trigger]
        task.may_fill(addr, 16, x) && match x {
            None => a == Err::<usize, Seq<char>>("Failed to read dyld_all_image_infos"@),
            Some(h) => task.may_load_first(bytes::le_at(h, 8, 8) as u64, a),
        };
    let y = choose|y: Option<Seq<u8>>| #[trigger]
        task.may_fill(addr, 16, y) && match y {
            None => b == Err::<usize, Seq<char>>("Failed to read dyld_all_image_infos"@),
            Some(h) => task.may_load_first(bytes::le_at(h, 8, 8) as u64, b),
        };
    lemma_fill(task, addr, 16, x, y);
    if x is Some {
        lemma_load_first(task, bytes::le_at(x->Some_0, 8, 8) as u64, a, b);
    }
}

/// The load address of the main image stays the same.
pub proof fn bases_stay<K: Kernel>(
    task: Task<K>,
    a: Result<usize, Seq<char>>,
    b: Result<usize, Seq<char>>,
)
    requires
        unchanging(task.kernel),
        task.may_load_at(a),
        task.may_load_at(b),
    ensures
        a == b,
{
    let x = choose|x: Result<u64, i32>| #[trigger]
        call_ensures(K::all_image_info_addr, (&task.kernel, task.port), x) && match x {
            Err(code) => a == Err::<usize, Seq<char>>(procmem::info_message(code as int)),
            Ok(addr) => task.may_load_from(addr, a),
        };
    let y = choose|y: Result<u64, i32>| #[trigger]
        call_ensures(K::all_image_info_addr, (&task.kernel, task.port), y) && match y {
            Err(code) => b == Err::<usize, Seq<char>>(procmem::info_message(code as int)),
            Ok(addr) => task.may_load_from(addr, b),
        };
    assert(x == y);
    if x is Ok {
        lemma_load_from(task, x->Ok_0, a, b);
    }
}

proof fn lemma_attach_task<K: Kernel>(
    task: Task<K>,
    pid: i32,
    a: Result<ProcMem<K>, Seq<char>>,
    b: Result<ProcMem<K>, Seq<char>>,
)
    requires
        unchanging(task.kernel),
        ProcMem::may_attach_task(task, pid, a),
        ProcMem::may_attach_task(task, pid, b),
    ensures
        a == b,
        a matches Ok(mem) ==> mem.task.may_measure(mem.base, mem.image_size),
{
    let x = choose|x: Result<usize, Seq<char>>| #[trigger]
        task.may_load_at(x) && match x {
            Err(message) => a == Err::<ProcMem<K>, Seq<char>>(message),
            Ok(base) => a matches Ok(mem) && mem.task == task && mem.pid == pid && mem.base == base
                && task.may_measure(base, mem.image_size),
        };
    let y = choose|y: Result<usize, Seq<char>>| #[trigger]
        task.may_load_at(y) && match y {
            Err(message) => b == Err::<ProcMem<K>, Seq<char>>(message),
            Ok(base) => b matches Ok(mem) && mem.task == task && mem.pid == pid && mem.base == base
                && task.may_measure(base, mem.image_size),
        };
    bases_stay(task, x, y);
    if x is Ok {
        extents_stay(task, x->Ok_0, a->Ok_0.image_size, b->Ok_0.image_size);
    }
}

/// Two attaches by names that differ in case alone, where one running process goes by them and the
/// system does not change in between, end alike: both fail in the same way, or both give the same
/// process, with the same load address and the extent that is measured there.
pub proof fn attaches_agree<K: Kernel>(
    kernel: K,
    processes: Seq<Process>,
    name: Seq<char>,
    other: Seq<char>,
    i: int,
    a: Result<ProcMem<K>, Seq<char>>,
    b: Result<ProcMem<K>, Seq<char>>,
)
    requires
        unchanging(kernel),
        text::lowercase(name) == text::lowercase(other),
        0 <= i < processes.len(),
        forall|j: int|
            0 <= j < processes.len() ==> (process::goes_by(#[trigger] processes[j], name) <==> j
                == i),
        ProcMem::may_attach_by(kernel, processes, name, a),
        ProcMem::may_attach_by(kernel, processes, other, b),
    ensures
        a is Ok <==> b is Ok,
        a is Ok ==> a->Ok_0.pid == b->Ok_0.pid && a->Ok_0.base == b->Ok_0.base
            && a->Ok_0.image_size == b->Ok_0.image_size,
        a is Ok ==> a->Ok_0.task.may_measure(a->Ok_0.base, a->Ok_0.image_size),
        a == b,
{
    let pid = processes[i].pid as i32;
    assert(process::goes_by(processes[i], name));
    assert(procmem::chosen(processes, name, i));
    assert(procmem::chosen(processes, other, i));
    let x = choose|x: Result<u32, i32>| #[trigger]
        call_ensures(K::task_for_pid, (&kernel, pid), x) && match x {
            Err(code) => a == Err::<ProcMem<K>, Seq<char>>(procmem::task_message(code as int)),
            Ok(port) => ProcMem::may_attach_task(Task { kernel, port }, pid, a),
        };
    let y = choose|y: Result<u32, i32>| #[trigger]
        call_ensures(K::task_for_pid, (&kernel, pid), y) && match y {
            Err(code) => b == Err::<ProcMem<K>, Seq<char>>(procmem::task_message(code as int)),
            Ok(port) => ProcMem::may_attach_task(Task { kernel, port }, pid, b),
        };
    assert(x == y);
    if x is Ok {
        lemma_attach_task(Task { kernel, port: x->Ok_0 }, pid, a, b);
    }
}

proof fn lemma_copy<K: Kernel>(
    task: Task<K>,
    address: u64,
    size: u64,
    a: Option<Seq<u8>>,
    b: Option<Seq<u8>>,
)
    requires
        unchanging(task.kernel),
        task.may_copy(address, size, a),
        task.may_copy(address, size, b),
    ensures
        a == b,
{
}

/// The replies to the reads of a region's chunks agree as far as both reach.
proof fn lemma_chunks_agree<K: Kernel>(
    task: Task<K>,
    r: Region,
    a: Seq<Option<Seq<u8>>>,
    b: Seq<Option<Seq<u8>>>,
    i: int,
)
    requires
        unchanging(task.kernel),
        task.may_read_chunks(r, a),
        task.may_read_chunks(r, b),
        0 <= i < a.len(),
        i < b.len(),
    ensures
        a[i] == b[i],
{
    lemma_copy(
        task,
        r.addr.wrapping_add((i * chunks::CHUNK) as usize) as u64,
        chunks::chunk_size(r, i) as u64,
        a[i],
        b[i],
    );
}

proof fn lemma_chunks<K: Kernel>(
    task: Task<K>,
    r: Region,
    a: Seq<Option<Seq<u8>>>,
    b: Seq<Option<Seq<u8>>>,
)
    requires
        unchanging(task.kernel),
        task.may_read_chunks(r, a),
        task.may_read_chunks(r, b),
    ensures
        a == b,
{
    assert forall|i: int| 0 <= i < a.len() && i < b.len() implies a[i] == b[i] by {
        lemma_chunks_agree(task, r, a, b, i);
    }
    if 0 < a.len() < b.len() {
        let n = a.len() - 1;
        assert(chunks::is_full(r, n, b[n]) && (n + 1) * chunks::CHUNK < r.size);
        assert(a[n] == b[n]);
    } else if 0 < b.len() < a.len() {
        let n = b.len() - 1;
        assert(chunks::is_full(r, n, a[n]) && (n + 1) * chunks::CHUNK < r.size);
        assert(a[n] == b[n]);
    }
    assert(a =~= b);
}

/// What reading a region yields stays the same.
pub proof fn region_reads_stay<K: Kernel>(
    task: Task<K>,
    r: Region,
    a: Option<Seq<u8>>,
    b: Option<Seq<u8>>,
)
    requires
        unchanging(task.kernel),
        task.may_read_region(r, a),
        task.may_read_region(r, b),
    ensures
        a == b,
{
    let x = choose|x: Seq<Option<Seq<u8>>>| #[trigger]
        task.may_read_chunks(r, x) && a == chunks::unless_empty(chunks::joined(x));
    let y = choose|y: Seq<Option<Seq<u8>>>| #[trigger]
        task.may_read_chunks(r, y) && b == chunks::unless_empty(chunks::joined(y));
    lemma_chunks(task, r, x, y);
}

/// What reading regions yields stays the same.
proof fn lemma_regions_read<K: Kernel>(
    task: Task<K>,
    regions: Seq<Region>,
    a: Seq<Option<Seq<u8>>>,
    b: Seq<Option<Seq<u8>>>,
)
    requires
        unchanging(task.kernel),
        task.may_read_regions(regions, a),
        task.may_read_regions(regions, b),
    ensures
        a == b,
{
    assert forall|i: int| 0 <= i < regions.len() implies a[i] == b[i] by {
        region_reads_stay(task, regions[i], a[i], b[i]);
    }
    assert(a =~= b);
}

/// Whatever is made of the regions of a scan, a second scan makes the same of them: so do the scans
/// for numbers and for text, and a second snapshot is the first.
pub proof fn scans_stay<K: Kernel, T>(
    task: Task<K>,
    regions: Seq<Region>,
    f: spec_fn(usize, Seq<u8>) -> Seq<T>,
    a: Seq<Option<Seq<u8>>>,
    b: Seq<Option<Seq<u8>>>,
)
    requires
        unchanging(task.kernel),
        task.may_read_regions(regions, a),
        task.may_read_regions(regions, b),
    ensures
        scan::gathered(regions, a, f) == scan::gathered(regions, b, f),
{
    lemma_regions_read(task, regions, a, b);
}

/// A second pointer map is the first.
pub proof fn pointer_maps_stay<K: Kernel>(
    task: Task<K>,
    readable: Seq<Region>,
    regions: Seq<Region>,
    bufs_a: Seq<Option<Seq<u8>>>,
    bufs_b: Seq<Option<Seq<u8>>>,
    a: Seq<Pointer>,
    b: Seq<Pointer>,
)
    requires
        unchanging(task.kernel),
        task.may_read_regions(regions, bufs_a),
        task.may_read_regions(regions, bufs_b),
        sort::stable_sort_of(
            scan::gathered(regions, bufs_a, scan::pointers_in(readable)),
            a,
            sort::own_rank(),
        ),
        sort::stable_sort_of(
            scan::gathered(regions, bufs_b, scan::pointers_in(readable)),
            b,
            sort::own_rank(),
        ),
    ensures
        a == b,
{
    lemma_regions_read(task, regions, bufs_a, bufs_b);
    sort::stable_sort_is_unique(
        scan::gathered(regions, bufs_a, scan::pointers_in(readable)),
        a,
        b,
        sort::own_rank(),
    );
}

/// The replies to the questions after regions agree as far as both reach.
proof fn lemma_reports_agree<K: Kernel>(
    task: Task<K>,
    a: Seq<Result<VmRegion, i32>>,
    b: Seq<Result<VmRegion, i32>>,
    n: int,
)
    requires
        unchanging(task.kernel),
        task.may_report(a),
        task.may_report(b),
        0 <= n <= a.len(),
        n <= b.len(),
    ensures
        a.take(n) == b.take(n),
    decreases n,
{
    if n == 0 {
        assert(a.take(0) =~= b.take(0));
    } else {
        let i = n - 1;
        lemma_reports_agree(task, a, b, i);
        if i > 0 {
            assert(a.take(i)[i - 1] == b.take(i)[i - 1]);
        }
        assert(task::asked(a, i) == task::asked(b, i));
        assert(a[i] == b[i]);
        assert(a.take(n) =~= a.take(i).push(a[i]));
        assert(b.take(n) =~= b.take(i).push(b[i]));
    }
}

/// The regions of a task stay the same.
pub proof fn regions_stay<K: Kernel>(
    task: Task<K>,
    a: Seq<Result<VmRegion, i32>>,
    b: Seq<Result<VmRegion, i32>>,
)
    requires
        unchanging(task.kernel),
        task.may_report(a),
        task.may_report(b),
    ensures
        a == b,
        task::all_reported(a) == task::all_reported(b),
{
    let n = if a.len() < b.len() {
        a.len() as int
    } else {
        b.len() as int
    };
    lemma_reports_agree(task, a, b, n);
    assert(a.take(n)[n - 1] == b.take(n)[n - 1]);
    assert(a.len() == b.len());
    assert(a.take(n) =~= a);
    assert(b.take(n) =~= b);
}

/// `part` is `whole` with some elements left out.
pub open spec fn is_part_of<T>(part: Seq<T>, whole: Seq<T>) -> bool
    decreases whole.len(),
{
    if part.len() == 0 {
        true
    } else if whole.len() == 0 {
        false
    } else {
        is_part_of(part, whole.drop_last()) || (part.last() == whole.last() && is_part_of(
            part.drop_last(),
            whole.drop_last(),
        ))
    }
}

proof fn lemma_capped<K: Kernel>(
    task: Task<K>,
    regions: Seq<Region>,
    max: usize,
    all: Seq<Option<Seq<u8>>>,
    some: Seq<Option<Seq<u8>>>,
)
    requires
        unchanging(task.kernel),
        task.may_read_regions(regions, all),
        task.may_read_regions(regions.filter(scan::sized(max)), some),
    ensures
        is_part_of(
            scan::gathered(regions.filter(scan::sized(max)), some, scan::whole()),
            scan::gathered(regions, all, scan::whole()),
        ),
    decreases regions.len(),
{
    reveal(Seq::filter);
    let keep = scan::sized(max);
    let capped = regions.filter(keep);
    let f = scan::whole();
    if regions.len() > 0 {
        let init = regions.drop_last();
        let all2 = all.drop_last();
        let n = regions.len() - 1;
        assert(task.may_read_regions(init, all2)) by {
            assert forall|i: int| 0 <= i < init.len() implies task.may_read_region(
                init[i],
                #[trigger] all2[i],
            ) by {
                assert(all2[i] == all[i]);
            }
        }
        let whole = scan::gathered(regions, all, f);
        let before = scan::gathered(init, all2, f);
        assert(task.may_read_region(regions[n], all[n]));
        if keep(regions.last()) {
            let some2 = some.drop_last();
            let m = capped.len() - 1;
            assert(capped.drop_last() =~= init.filter(keep));
            assert(capped[m] == regions[n]);
            assert(task.may_read_regions(init.filter(keep), some2)) by {
                assert forall|i: int| 0 <= i < init.filter(keep).len() implies task.may_read_region(
                    init.filter(keep)[i],
                    #[trigger] some2[i],
                ) by {
                    assert(some2[i] == some[i]);
                    assert(capped[i] == init.filter(keep)[i]);
                }
            }
            lemma_capped(task, init, max, all2, some2);
            assert(task.may_read_region(capped[m], some[m]));
            region_reads_stay(task, regions[n], all[n], some[m]);
            let part = scan::gathered(capped, some, f);
            let part2 = scan::gathered(init.filter(keep), some2, f);
            match all[n] {
                Some(b) => {
                    assert(whole =~= before.push((regions[n].addr, b)));
                    assert(part =~= part2.push((regions[n].addr, b)));
                    assert(whole.drop_last() =~= before && part.drop_last() =~= part2);
                },
                None => {
                    assert(whole =~= before);
                    assert(part =~= part2);
                },
            }
        } else {
            assert(capped =~= init.filter(keep));
            lemma_capped(task, init, max, all2, some);
            match all[n] {
                Some(b) => {
                    assert(whole =~= before.push((regions[n].addr, b)));
                    assert(whole.drop_last() =~= before);
                },
                None => {
                    assert(whole =~= before);
                },
            }
        }
    }
}

/// The capped snapshot is part of the whole one.
pub proof fn capped_snapshot_is_part<K: Kernel>(
    task: Task<K>,
    regions: Seq<Region>,
    max: usize,
    bufs: Seq<Option<Seq<u8>>>,
    capped_bufs: Seq<Option<Seq<u8>>>,
    snapshot: Snapshot,
    capped: Snapshot,
)
    requires
        unchanging(task.kernel),
        task.may_read_regions(regions, bufs),
        snapshot == scan::gathered(regions, bufs, scan::whole()),
        task.may_read_regions(regions.filter(scan::sized(max)), capped_bufs),
        capped == scan::gathered(
            regions.filter(scan::sized(max)),
            capped_bufs,
            scan::whole(),
        ),
    ensures
        is_part_of(capped, snapshot),
{
    lemma_capped(task, regions, max, bufs, capped_bufs);
}

} // verus!
