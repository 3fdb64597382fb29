//! What is read of a task: from the kernel's replies, and from a memory that holds still.
use crate::bytes;
use crate::chunks;
use crate::hits;
use crate::macho;
use crate::macho::{LoadCommand, Segment};
use crate::meaning;
use crate::path;
use crate::path::Route;
use crate::process;
use crate::process::Process;
use crate::procmem;
use crate::procmem::ProcMem;
use crate::region::Region;
use crate::resolve;
use crate::scan::Scanner;
use crate::steady;
use crate::task;
use crate::task::{Kernel, Task, VmRegion};
use crate::text;
use vstd::prelude::*;

verus! {

/// A read of up to `size` bytes asks the kernel for these and yields the bytes of its reply, no more
/// than were asked for; nothing where the kernel refuses.
pub proof fn copies_hand_on_the_reply<K: Kernel>(
    task: Task<K>,
    address: u64,
    size: u64,
    got: Option<Seq<u8>>,
) -> (reply: Result<Vec<u8>, i32>)
    requires
        task.may_copy(address, size, got),
    ensures
        call_ensures(K::vm_read, (&task.kernel, task.port, address, size), reply),
        reply is Err ==> got is None,
        reply matches Ok(v) ==> got == Some(
            v@.take(
                if v@.len() <= size {
                    v@.len() as int
                } else {
                    size as int
                },
            ),
        ),
{
    let reply = choose|reply: Result<Vec<u8>, i32>| #[trigger]
        call_ensures(K::vm_read, (&task.kernel, task.port, address, size), reply) && got
            == task::copied(reply, size as int);
    if let Ok(v) = reply {
        assert(v@.take(v@.len() as int) =~= v@);
    }
    reply
}

/// A read of exactly `size` bytes yields the kernel's reply where that has this size, and nothing
/// else.
pub proof fn fills_take_whole_replies<K: Kernel>(
    task: Task<K>,
    address: u64,
    size: u64,
    got: Option<Seq<u8>>,
) -> (reply: Result<Vec<u8>, i32>)
    requires
        task.may_fill(address, size, got),
    ensures
        call_ensures(K::vm_read, (&task.kernel, task.port, address, size), reply),
        got is Some <==> reply is Ok && reply->Ok_0@.len() == size,
        got is Some ==> got->Some_0 == reply->Ok_0@,
{
    choose|reply: Result<Vec<u8>, i32>| #[trigger]
        call_ensures(K::vm_read, (&task.kernel, task.port, address, size), reply) && got
            == task::filled(reply, size as int)
}

/// A read of a value yields the bytes of the kernel's reply, with zeros for those that are missing;
/// nothing where the kernel refuses.
pub proof fn values_are_filled_with_zeros<K: Kernel>(
    task: Task<K>,
    address: usize,
    size: usize,
    got: Option<Seq<u8>>,
) -> (reply: Result<Vec<u8>, i32>)
    requires
        task.may_read(address, size, got),
    ensures
        call_ensures(K::vm_read, (&task.kernel, task.port, address as u64, size as u64), reply),
        got is Some <==> reply is Ok,
        got is Some ==> got->Some_0.len() == size && forall|k: int|
            0 <= k < size ==> #[trigger] got->Some_0[k] == (if k < reply->Ok_0@.len() {
                reply->Ok_0@[k]
            } else {
                0
            }),
{
    let part = choose|part: Option<Seq<u8>>| #[trigger]
        task.may_copy(address as u64, size as u64, part) && got == (match part {
            Some(p) => Some(task::zero_filled(p, size as int)),
            None => None,
        });
    copies_hand_on_the_reply(task, address as u64, size as u64, part)
}

/// A word is read as the number that its bytes hold, lowest byte first.
pub proof fn words_are_read_lowest_byte_first<K: Kernel>(
    task: Task<K>,
    address: usize,
    long: Option<u64>,
    short: Option<u32>,
) -> (b: (Option<Seq<u8>>, Option<Seq<u8>>))
    requires
        task.may_read_u64(address, long),
        task.may_read_u32(address, short),
    ensures
        task.may_read(address, 8, b.0),
        long is Some <==> b.0 is Some,
        long is Some ==> long->Some_0 == hits::word64(b.0->Some_0, 0),
        task.may_read(address, 4, b.1),
        short is Some <==> b.1 is Some,
        short is Some ==> short->Some_0 == hits::word32(b.1->Some_0, 0),
{
    let x = choose|x: Option<Seq<u8>>| #[trigger]
        task.may_read(address, 8, x) && long == (match x {
            Some(s) => Some(bytes::le_value(s) as u64),
            None => None,
        });
    let y = choose|y: Option<Seq<u8>>| #[trigger]
        task.may_read(address, 4, y) && short == (match y {
            Some(s) => Some(bytes::le_value(s) as u32),
            None => None,
        });
    if x is Some {
        let s = x->Some_0;
        let _ = values_are_filled_with_zeros(task, address, 8, x);
        assert(s.subrange(0, 8) =~= s);
        meaning::words_stand_lowest_byte_first(s, 0);
    }
    if y is Some {
        let s = y->Some_0;
        let _ = values_are_filled_with_zeros(task, address, 4, y);
        assert(s.subrange(0, 4) =~= s);
        meaning::words_stand_lowest_byte_first(s, 0);
    }
    (x, y)
}

/// The questions after regions start behind the guard page and go on at the end of each region that
/// was reported, until the kernel refuses, reports an empty region, or one whose end is past the
/// last address.
pub proof fn questions_go_on_at_each_end<K: Kernel>(
    task: Task<K>,
    replies: Seq<Result<VmRegion, i32>>,
    i: int,
)
    requires
        task.may_report(replies),
        0 <= i < replies.len(),
    ensures
        i == 0 ==> call_ensures(K::vm_region, (&task.kernel, task.port, 1u64), replies[i]),
        i > 0 ==> replies[i - 1] is Ok && replies[i - 1]->Ok_0.size != 0 && call_ensures(
            K::vm_region,
            (
                &task.kernel,
                task.port,
                (replies[i - 1]->Ok_0.address + replies[i - 1]->Ok_0.size) as u64,
            ),
            replies[i],
        ) && replies[i - 1]->Ok_0.address + replies[i - 1]->Ok_0.size <= u64::MAX,
        i == replies.len() - 1 && replies.len() < u64::MAX ==> replies[i] is Err
            || replies[i]->Ok_0.size == 0 || replies[i]->Ok_0.address + replies[i]->Ok_0.size
            > u64::MAX,
{
    assert(call_ensures(
        K::vm_region,
        (&task.kernel, task.port, task::asked(replies, i) as u64),
        replies[i],
    ));
    if i > 0 {
        assert(task::leads_on(replies[i - 1]));
    }
    if i == replies.len() - 1 {
        assert(replies[i] == replies.last());
    }
}

/// The regions reported add up: each reply adds the region it reports, if that is not empty and may
/// be read, and it counts as writable if it may be written.
pub proof fn reports_add_up(replies: Seq<Result<VmRegion, i32>>, reply: Result<VmRegion, i32>)
    ensures
        task::all_reported(Seq::empty()) == Seq::<Region>::empty(),
        reply is Err ==> task::all_reported(replies.push(reply)) == task::all_reported(replies),
        reply matches Ok(r) ==> {
            if r.size != 0 && r.protection & 1 != 0 {
                task::all_reported(replies.push(reply)) == task::all_reported(replies).push(
                    (Region {
                        addr: r.address as usize,
                        size: r.size as usize,
                        writable: r.protection & 2 != 0,
                    }),
                )
            } else {
                task::all_reported(replies.push(reply)) == task::all_reported(replies)
            }
        },
{
    assert(replies.push(reply).drop_last() =~= replies);
    assert(task::all_reported(Seq::empty()) =~= Seq::<Region>::empty());
}

/// Reads of up to eight mebibytes that start in the first `count` bytes of a region yield what
/// `memory` holds there, up to these; reads behind them yield nothing.
pub open spec fn readable_up_to<K: Kernel>(
    task: Task<K>,
    r: Region,
    memory: spec_fn(int) -> u8,
    count: int,
) -> bool {
    forall|off: int, size: int, reply: Result<Vec<u8>, i32>|
        #![trigger call_ensures(
            K::vm_read,
            (&task.kernel, task.port, (r.addr + off) as u64, size as u64),
            reply,
        )]
        0 <= off < r.size && 0 <= size <= 8_388_608 && off + size <= r.size && call_ensures(
            K::vm_read,
            (&task.kernel, task.port, (r.addr + off) as u64, size as u64),
            reply,
        ) ==> {
            if off >= count {
                reply is Err || reply->Ok_0@.len() == 0
            } else {
                let n = if off + size <= count {
                    size
                } else {
                    count - off
                };
                reply matches Ok(v) && v@ == Seq::new(
                    n as nat,
                    |k: int| memory(r.addr + off + k),
                )
            }
        }
}

/// Reading a region yields its bytes up to the first hole, all of them where there is none, and
/// nothing where it starts with a hole.
pub proof fn regions_are_read_up_to_a_hole<K: Kernel>(
    task: Task<K>,
    r: Region,
    memory: spec_fn(int) -> u8,
    count: int,
    got: Option<Seq<u8>>,
)
    requires
        r.addr + r.size <= usize::MAX,
        0 <= count <= r.size,
        readable_up_to(task, r, memory, count),
        task.may_read_region(r, got),
    ensures
        count == 0 ==> got is None,
        count > 0 ==> got == Some(Seq::new(count as nat, |i: int| memory(r.addr + i))),
{
    let replies = choose|replies: Seq<Option<Seq<u8>>>| #[trigger]
        task.may_read_chunks(r, replies) && got == chunks::unless_empty(chunks::joined(replies));
    let all = chunks::joined(replies);
    let c = chunks::CHUNK as int;
    chunks::region_reads_keep_their_place(&task, r, replies);
    assert forall|i: int| 0 <= i < replies.len() implies {
        let off = i * c;
        let size = chunks::chunk_size(r, i);
        let n = if off >= count {
            0
        } else if off + size <= count {
            size
        } else {
            count - off
        };
        &&& 0 <= off < r.size
        &&& 0 < size
        &&& n > 0 ==> #[trigger] replies[i] is Some
        &&& replies[i] is Some ==> replies[i]->Some_0 == Seq::new(
            n as nat,
            |k: int| memory(r.addr + off + k),
        )
    } by {
        let off = i * c;
        let size = chunks::chunk_size(r, i);
        assert(r.addr.wrapping_add(off as usize) == r.addr + off);
        assert(task.may_copy((r.addr + off) as u64, size as u64, replies[i]));
        let reply = copies_hand_on_the_reply(
            task,
            (r.addr + off) as u64,
            size as u64,
            replies[i],
        );
        assert(call_ensures(
            K::vm_read,
            (&task.kernel, task.port, (r.addr + off) as u64, size as u64),
            reply,
        ));
        if replies[i] is Some && off >= count {
            assert(replies[i]->Some_0 =~= Seq::new(
                0nat,
                |k: int| memory(r.addr + off + k),
            ));
        } else if replies[i] is Some {
            let v = reply->Ok_0@;
            assert(v.take(v.len() as int) =~= v);
        }
    }
    if replies.len() == 0 {
        assert(count == 0);
        assert(all =~= Seq::empty());
    } else {
        let n = replies.len() - 1;
        // all chunks but the last are full
        assert forall|i: int| 0 <= i < n implies chunks::is_full(r, i, #[trigger] replies[i])
            && (i + 1) * c < r.size && (i + 1) * c <= count by {
            assert((i + 1) * c == i * c + c);
            assert(replies[i] is Some);
        }
        let init = replies.drop_last();
        lemma_joined_length(r, init);
        assert(chunks::joined(replies) == chunks::joined(init) + (match replies.last() {
            Some(b) => b,
            None => Seq::empty(),
        }));
        assert(replies.last() == replies[n]);
        if n > 0 {
            assert(n * c <= count) by {
                assert(chunks::is_full(r, n - 1, replies[n - 1]));
            }
        }
        assert((n + 1) * c == n * c + c);
        assert(all.len() == count);
        assert forall|j: int| 0 <= j < count implies all[j] == memory(r.addr + j) by {
            let i = j / c;
            let k = j % c;
            assert(j == i * c + k);
            assert(0 <= i <= n);
            assert(replies[i] is Some);
            assert(0 <= k < replies[i]->Some_0.len());
            assert(replies[i]->Some_0[k] == memory(r.addr + i * c + k));
        }
        assert(all =~= Seq::new(count as nat, |i: int| memory(r.addr + i)));
    }
}

/// Full chunks follow each other.
proof fn lemma_joined_length(r: Region, replies: Seq<Option<Seq<u8>>>)
    requires
        forall|i: int|
            0 <= i < replies.len() ==> chunks::is_full(r, i, #[trigger] replies[i]) && (i + 1)
                * chunks::CHUNK < r.size,
    ensures
        chunks::joined(replies).len() == replies.len() * chunks::CHUNK,
    decreases replies.len(),
{
    if replies.len() > 0 {
        let init = replies.drop_last();
        let n = replies.len() - 1;
        assert forall|i: int| 0 <= i < init.len() implies chunks::is_full(r, i, #[trigger] init[i])
            && (i + 1) * chunks::CHUNK < r.size by {
            assert(init[i] == replies[i]);
        }
        lemma_joined_length(r, init);
        assert(chunks::is_full(r, n, replies[n]));
        assert((n + 1) * chunks::CHUNK == n * chunks::CHUNK + chunks::CHUNK);
    }
}

/// Every read yields in full what `memory` holds.
pub open spec fn shows<K: Kernel>(task: Task<K>, memory: spec_fn(int) -> u8) -> bool {
    forall|address: u64, size: u64, reply: Result<Vec<u8>, i32>| #[trigger]
        call_ensures(K::vm_read, (&task.kernel, task.port, address, size), reply) ==> (
        reply matches Ok(v) && v@ == Seq::new(size as nat, |k: int| memory(address + k)))
}

/// The bytes of a memory from an address on.
pub open spec fn stretch(memory: spec_fn(int) -> u8, address: int, size: int) -> Seq<u8> {
    Seq::new(size as nat, |k: int| memory(address + k))
}

/// The eight-byte word of a memory at an address, lowest byte first.
pub open spec fn long_at(memory: spec_fn(int) -> u8, address: int) -> int {
    hits::word64(stretch(memory, address, 8), 0)
}

/// The four-byte word of a memory at an address, lowest byte first.
pub open spec fn short_at(memory: spec_fn(int) -> u8, address: int) -> int {
    hits::word32(stretch(memory, address, 4), 0)
}

/// Of a memory that holds still, reads yield the bytes and words that stand there.
pub proof fn reads_yield_what_stands_there<K: Kernel>(
    task: Task<K>,
    memory: spec_fn(int) -> u8,
    address: usize,
    size: usize,
    copy: Option<Seq<u8>>,
    value: Option<Seq<u8>>,
)
    requires
        shows(task, memory),
        task.may_copy(address as u64, size as u64, copy),
        task.may_read(address, size, value),
    ensures
        copy == Some(stretch(memory, address as int, size as int)),
        value == Some(stretch(memory, address as int, size as int)),
{
    let reply = copies_hand_on_the_reply(task, address as u64, size as u64, copy);
    assert(reply->Ok_0@.take(size as int) =~= reply->Ok_0@);
    let _ = values_are_filled_with_zeros(task, address, size, value);
    assert(value->Some_0 =~= stretch(memory, address as int, size as int));
}

proof fn lemma_value<K: Kernel>(
    task: Task<K>,
    memory: spec_fn(int) -> u8,
    address: usize,
    size: usize,
    value: Option<Seq<u8>>,
)
    requires
        shows(task, memory),
        task.may_read(address, size, value),
    ensures
        value == Some(stretch(memory, address as int, size as int)),
{
    let _ = values_are_filled_with_zeros(task, address, size, value);
    assert(value->Some_0 =~= stretch(memory, address as int, size as int));
}

proof fn lemma_fill<K: Kernel>(
    task: Task<K>,
    memory: spec_fn(int) -> u8,
    address: u64,
    size: u64,
    got: Option<Seq<u8>>,
)
    requires
        shows(task, memory),
        task.may_fill(address, size, got),
    ensures
        got == Some(stretch(memory, address as int, size as int)),
{
    let _ = fills_take_whole_replies(task, address, size, got);
    assert(got->Some_0 =~= stretch(memory, address as int, size as int));
}

/// Of a memory that holds still, a read of a word yields the word that stands there.
pub proof fn longs_yield_what_stands_there<K: Kernel>(
    task: Task<K>,
    memory: spec_fn(int) -> u8,
    address: usize,
    got: Option<u64>,
)
    requires
        shows(task, memory),
        task.may_read_u64(address, got),
    ensures
        got is Some,
        got->Some_0 == long_at(memory, address as int),
{
    let x = choose|x: Option<Seq<u8>>| #[trigger]
        task.may_read(address, 8, x) && got == (match x {
            Some(s) => Some(bytes::le_value(s) as u64),
            None => None,
        });
    lemma_value(task, memory, address, 8, x);
    let s = x->Some_0;
    assert(s.subrange(0, 8) =~= s);
    meaning::words_stand_lowest_byte_first(s, 0);
}

/// Of a memory that holds still, a read of a short word yields the word that stands there.
pub proof fn shorts_yield_what_stands_there<K: Kernel>(
    task: Task<K>,
    memory: spec_fn(int) -> u8,
    address: usize,
    got: Option<u32>,
)
    requires
        shows(task, memory),
        task.may_read_u32(address, got),
    ensures
        got is Some,
        got->Some_0 == short_at(memory, address as int),
{
    let x = choose|x: Option<Seq<u8>>| #[trigger]
        task.may_read(address, 4, x) && got == (match x {
            Some(s) => Some(bytes::le_value(s) as u32),
            None => None,
        });
    lemma_value(task, memory, address, 4, x);
    let s = x->Some_0;
    assert(s.subrange(0, 4) =~= s);
    meaning::words_stand_lowest_byte_first(s, 0);
}

/// Of a memory that holds still, the load address of the main image is the first word of the list of
/// images, whose address stands eight bytes into the loader's data.
pub proof fn base_is_the_first_image<K: Kernel>(
    task: Task<K>,
    memory: spec_fn(int) -> u8,
    info: u64,
    base: Result<usize, Seq<char>>,
)
    requires
        shows(task, memory),
        forall|reply: Result<u64, i32>| #[trigger]
            call_ensures(K::all_image_info_addr, (&task.kernel, task.port), reply) ==> reply
                == Ok::<u64, i32>(info),
        info + 8 <= u64::MAX,
        task.may_load_at(base),
    ensures
        base == Ok::<usize, Seq<char>>(
            long_at(memory, long_at(memory, info + 8)) as u64 as usize,
        ),
{
    let header = choose|header: Option<Seq<u8>>| #[trigger]
        task.may_fill(info, 16, header) && match header {
            None => base == Err::<usize, Seq<char>>("Failed to read dyld_all_image_infos"@),
            Some(h) => task.may_load_first(bytes::le_at(h, 8, 8) as u64, base),
        };
    lemma_fill(task, memory, info, 16, header);
    let h = header->Some_0;
    meaning::words_stand_lowest_byte_first(h, 8);
    let array = bytes::le_at(h, 8, 8) as u64;
    assert(array == long_at(memory, info + 8));
    let first = choose|first: Option<Seq<u8>>| #[trigger]
        task.may_fill(array, 8, first) && base == (match first {
            None => Err::<usize, Seq<char>>("Failed to read dyld image info array"@),
            Some(f) => Ok(bytes::le_value(f) as u64 as usize),
        });
    lemma_fill(task, memory, array, 8, first);
    let f = first->Some_0;
    assert(f.subrange(0, 8) =~= f);
    meaning::words_stand_lowest_byte_first(f, 0);
}

/// What a failure to find the load address says: the kernel's code where it does not tell of the
/// loader's data, and otherwise which of the two reads failed.
pub proof fn failures_to_load_tell_where<K: Kernel>(
    task: Task<K>,
    base: Result<usize, Seq<char>>,
) -> (r: (Result<u64, i32>, Option<Seq<u8>>, Option<Seq<u8>>))
    requires
        task.may_load_at(base),
    ensures
        call_ensures(K::all_image_info_addr, (&task.kernel, task.port), r.0),
        r.0 is Err ==> base == Err::<usize, Seq<char>>(
            "task_info(TASK_DYLD_INFO) failed: "@ + text::decimal(r.0->Err_0 as int),
        ),
        r.0 is Ok ==> task.may_fill(r.0->Ok_0, 16, r.1),
        r.0 is Ok && r.1 is None ==> base == Err::<usize, Seq<char>>(
            "Failed to read dyld_all_image_infos"@,
        ),
        r.0 is Ok && r.1 is Some ==> task.may_fill(hits::word64(r.1->Some_0, 8) as u64, 8, r.2),
        r.0 is Ok && r.1 is Some && r.2 is None ==> base == Err::<usize, Seq<char>>(
            "Failed to read dyld image info array"@,
        ),
        r.0 is Ok && r.1 is Some && r.2 is Some ==> base == Ok::<usize, Seq<char>>(
            hits::word64(r.2->Some_0, 0) as u64 as usize,
        ),
{
    let info = choose|info: Result<u64, i32>| #[trigger]
        call_ensures(K::all_image_info_addr, (&task.kernel, task.port), info) && match info {
            Err(code) => base == Err::<usize, Seq<char>>(procmem::info_message(code as int)),
            Ok(addr) => task.may_load_from(addr, base),
        };
    if info is Err {
        (info, None, None)
    } else {
        let addr = info->Ok_0;
        let header = choose|header: Option<Seq<u8>>| #[trigger]
            task.may_fill(addr, 16, header) && match header {
                None => base == Err::<usize, Seq<char>>("Failed to read dyld_all_image_infos"@),
                Some(h) => task.may_load_first(bytes::le_at(h, 8, 8) as u64, base),
            };
        if header is None {
            (info, None, None)
        } else {
            let h = header->Some_0;
            let _ = fills_take_whole_replies(task, addr, 16, header);
            meaning::words_stand_lowest_byte_first(h, 8);
            let array = bytes::le_at(h, 8, 8) as u64;
            let first = choose|first: Option<Seq<u8>>| #[trigger]
                task.may_fill(array, 8, first) && base == (match first {
                    None => Err::<usize, Seq<char>>("Failed to read dyld image info array"@),
                    Some(f) => Ok(bytes::le_value(f) as u64 as usize),
                });
            if first is Some {
                let f = first->Some_0;
                let _ = fills_take_whole_replies(task, array, 8, first);
                assert(f.subrange(0, 8) =~= f);
                meaning::words_stand_lowest_byte_first(f, 0);
            }
            (info, header, first)
        }
    }
}

/// The `i`-th pointer along a route is the one that stands at its location.
spec fn hop_stands<K: Kernel>(
    mem: ProcMem<K>,
    memory: spec_fn(int) -> u8,
    r: Route,
    hops: Seq<u64>,
    i: int,
) -> bool {
    hops[i] == long_at(memory, mem.hop_addr(r, hops, i) as int)
}

proof fn lemma_hop<K: Kernel>(
    mem: ProcMem<K>,
    memory: spec_fn(int) -> u8,
    r: Route,
    hops: Seq<u64>,
    i: int,
)
    requires
        shows(mem.task, memory),
        mem.may_follow(r, hops),
        0 <= i < hops.len(),
    ensures
        hop_stands(mem, memory, r, hops, i),
{
    let at = mem.hop_addr(r, hops, i);
    assert(mem.task.may_read_u64(at, Some(hops[i])));
    longs_yield_what_stands_there(mem.task, memory, at, Some(hops[i]));
}

/// Along the part that two routes have in common the pointers are the same.
proof fn lemma_hops_agree<K: Kernel>(
    mem: ProcMem<K>,
    memory: spec_fn(int) -> u8,
    a: Route,
    b: Route,
    x: Seq<u64>,
    y: Seq<u64>,
    i: int,
)
    requires
        a.0 == b.0,
        a.1.len() <= b.1.len(),
        a.1 == b.1.take(a.1.len() as int),
        forall|k: int| 0 <= k <= i ==> #[trigger] hop_stands(mem, memory, a, x, k),
        forall|k: int| 0 <= k <= i ==> #[trigger] hop_stands(mem, memory, b, y, k),
        0 <= i < x.len(),
        i < y.len(),
        i <= a.1.len(),
    ensures
        x[i] == y[i],
    decreases i,
{
    assert(hop_stands(mem, memory, a, x, i) && hop_stands(mem, memory, b, y, i));
    if i > 0 {
        lemma_hops_agree(mem, memory, a, b, x, y, i - 1);
        assert(a.1[i - 1] == b.1[i - 1]);
    }
}

proof fn lemma_hops_stay<K: Kernel>(
    mem: ProcMem<K>,
    memory: spec_fn(int) -> u8,
    a: Route,
    b: Route,
    x: Seq<u64>,
    y: Seq<u64>,
    i: int,
)
    requires
        shows(mem.task, memory),
        a.0 == b.0,
        a.1.len() <= b.1.len(),
        a.1 == b.1.take(a.1.len() as int),
        mem.may_follow(a, x),
        mem.may_follow(b, y),
        0 <= i < x.len(),
        i < y.len(),
        i <= a.1.len(),
    ensures
        x[i] == y[i],
{
    assert forall|k: int| 0 <= k <= i implies #[trigger] hop_stands(mem, memory, a, x, k) by {
        lemma_hop(mem, memory, a, x, k);
    }
    assert forall|k: int| 0 <= k <= i implies #[trigger] hop_stands(mem, memory, b, y, k) by {
        lemma_hop(mem, memory, b, y, k);
    }
    lemma_hops_agree(mem, memory, a, b, x, y, i);
}

proof fn lemma_resolved<K: Kernel>(
    mem: ProcMem<K>,
    memory: spec_fn(int) -> u8,
    r: Route,
    addr: Option<usize>,
) -> (hops: Seq<u64>)
    requires
        shows(mem.task, memory),
        mem.may_resolve(r, addr),
    ensures
        mem.may_follow(r, hops),
        hops.len() == path::route_depth(r),
        addr == Some((hops.last() as usize).wrapping_add(resolve::final_offset(r))),
{
    let hops = choose|hops: Seq<u64>| #[trigger]
        mem.may_follow(r, hops) && match addr {
            Some(a) => hops.len() == path::route_depth(r) && a == (
            hops.last() as usize).wrapping_add(resolve::final_offset(r)),
            None => hops.len() < path::route_depth(r) && mem.task.may_read_u64(
                mem.hop_addr(r, hops, hops.len() as int),
                None,
            ),
        };
    if addr is None {
        longs_yield_what_stands_there(
            mem.task,
            memory,
            mem.hop_addr(r, hops, hops.len() as int),
            None,
        );
    }
    hops
}

/// Of a memory that holds still, a path without offsets resolves to the pointer at its first
/// location, and a path with one offset to that pointer plus the offset.
pub proof fn short_paths_resolve<K: Kernel>(
    mem: ProcMem<K>,
    memory: spec_fn(int) -> u8,
    rva: usize,
    offset: usize,
    a: Option<usize>,
    b: Option<usize>,
)
    requires
        shows(mem.task, memory),
        mem.may_resolve((rva, Seq::empty()), a),
        mem.may_resolve((rva, seq![offset]), b),
    ensures
        a == Some(long_at(memory, mem.base.wrapping_add(rva) as int) as u64 as usize),
        b == Some((a->Some_0).wrapping_add(offset)),
{
    let ra: Route = (rva, Seq::empty());
    let rb: Route = (rva, seq![offset]);
    let x = lemma_resolved(mem, memory, ra, a);
    let y = lemma_resolved(mem, memory, rb, b);
    assert(ra.1 =~= rb.1.take(0));
    lemma_hops_stay(mem, memory, ra, rb, x, y, 0);
    lemma_hop(mem, memory, ra, x, 0);
}

/// Of a memory that holds still, one offset more takes the pointer that stands where the shorter
/// path resolves to, and adds the offset.
pub proof fn longer_paths_go_one_pointer_on<K: Kernel>(
    mem: ProcMem<K>,
    memory: spec_fn(int) -> u8,
    r: Route,
    offset: usize,
    a: Option<usize>,
    b: Option<usize>,
)
    requires
        shows(mem.task, memory),
        r.1.len() > 0,
        mem.may_resolve(r, a),
        mem.may_resolve((r.0, r.1.push(offset)), b),
    ensures
        a is Some,
        b == Some((long_at(memory, a->Some_0 as int) as u64 as usize).wrapping_add(offset)),
{
    let rb: Route = (r.0, r.1.push(offset));
    let n = r.1.len() as int;
    let x = lemma_resolved(mem, memory, r, a);
    let y = lemma_resolved(mem, memory, rb, b);
    assert(r.1 =~= rb.1.take(n));
    lemma_hops_stay(mem, memory, r, rb, x, y, n - 1);
    assert(rb.1[n - 1] == r.1.last());
    assert(mem.hop_addr(rb, y, n) == a->Some_0);
    lemma_hop(mem, memory, rb, y, n);
}

/// Where the first read of a path is refused, it does not resolve.
pub proof fn paths_end_at_a_refusal<K: Kernel>(
    mem: ProcMem<K>,
    r: Route,
    addr: Option<usize>,
)
    requires
        forall|reply: Result<Vec<u8>, i32>| #[trigger]
            call_ensures(
                K::vm_read,
                (&mem.task.kernel, mem.task.port, mem.base.wrapping_add(r.0) as u64, 8u64),
                reply,
            ) ==> reply is Err,
        mem.may_resolve(r, addr),
    ensures
        addr is None,
{
    let hops = choose|hops: Seq<u64>| #[trigger]
        mem.may_follow(r, hops) && match addr {
            Some(a) => hops.len() == path::route_depth(r) && a == (
            hops.last() as usize).wrapping_add(resolve::final_offset(r)),
            None => hops.len() < path::route_depth(r) && mem.task.may_read_u64(
                mem.hop_addr(r, hops, hops.len() as int),
                None,
            ),
        };
    if addr is Some {
        let at = mem.base.wrapping_add(r.0);
        assert(mem.task.may_read_u64(mem.hop_addr(r, hops, 0), Some(hops[0])));
        let x = choose|x: Option<Seq<u8>>| #[trigger]
            mem.task.may_read(at, 8, x) && Some(hops[0]) == (match x {
                Some(s) => Some(bytes::le_value(s) as u64),
                None => None,
            });
        let _ = values_are_filled_with_zeros(mem.task, at, 8, x);
    }
}

/// Of a memory that holds still, the load commands stand one behind the other from byte 32 of the
/// image on: each tells its kind and its size in its first two words, and one of kind 25 has a name
/// at byte 8, a start at byte 24 and a size at byte 32.
pub proof fn load_commands_are_read_in_place<K: Kernel>(
    task: Task<K>,
    memory: spec_fn(int) -> u8,
    base: usize,
    n: u32,
    cmds: Seq<LoadCommand>,
    i: int,
    at: usize,
)
    requires
        shows(task, memory),
        task.may_read_commands(base, n, cmds),
        0 <= i <= cmds.len(),
        at == macho::command_addr(base, cmds, i),
    ensures
        cmds.len() <= n,
        i == 0 ==> at == base.wrapping_add(32),
        i > 0 ==> at == macho::command_addr(base, cmds, i - 1).wrapping_add(
            cmds[i - 1].cmdsize as usize,
        ),
        i == cmds.len() && i < n ==> short_at(memory, at.wrapping_add(4) as int) == 0,
        i < cmds.len() ==> {
            let c = cmds[i];
            &&& c.cmdsize == short_at(memory, at.wrapping_add(4) as int)
            &&& c.cmdsize != 0
            &&& c.segment is Some <==> short_at(memory, at as int) == 0x19
            &&& c.segment is Some ==> c.segment->Some_0.vmaddr == long_at(
                memory,
                at.wrapping_add(24) as int,
            )
            &&& c.segment is Some ==> c.segment->Some_0.vmsize == long_at(
                memory,
                at.wrapping_add(32) as int,
            )
            &&& c.segment is Some ==> (c.segment->Some_0.pagezero <==> stretch(
                memory,
                at.wrapping_add(8) as int,
                10,
            ) == seq![0x5fu8, 0x5f, 0x50, 0x41, 0x47, 0x45, 0x5a, 0x45, 0x52, 0x4f])
        },
{
    let got = if i < cmds.len() {
        Some(cmds[i])
    } else {
        None
    };
    if i < cmds.len() || i < n {
        assert(task.may_read_command(at, got));
        let (kind, size) = steady::lemma_command_parts(task, at, got);
        shorts_yield_what_stands_there(task, memory, at, kind);
        shorts_yield_what_stands_there(task, memory, at.wrapping_add(4), size);
        if i < cmds.len() && cmds[i].segment is Some {
            let seg = cmds[i].segment->Some_0;
            let (name, v, z) = choose|name: Option<Seq<u8>>, v: Option<u64>, z: Option<u64>|
                #![trigger task.may_read(at.wrapping_add(8), 16, name), task.may_read_u64(
                    at.wrapping_add(24),
                    v,
                ), task.may_read_u64(at.wrapping_add(32), z)]
                {
                    &&& task.may_read(at.wrapping_add(8), 16, name)
                    &&& task.may_read_u64(at.wrapping_add(24), v)
                    &&& task.may_read_u64(at.wrapping_add(32), z)
                    &&& seg == Segment {
                        pagezero: macho::names_pagezero(name),
                        vmaddr: macho::or_zero(v),
                        vmsize: macho::or_zero(z),
                    }
                };
            longs_yield_what_stands_there(task, memory, at.wrapping_add(24), v);
            longs_yield_what_stands_there(task, memory, at.wrapping_add(32), z);
            lemma_value(task, memory, at.wrapping_add(8), 16, name);
            assert(name->Some_0.take(10) =~= stretch(memory, at.wrapping_add(8) as int, 10));
        }
    }
}

/// Of a memory that holds still, the extent of an image is that of the load commands counted at byte
/// 16 of it.
pub proof fn extent_is_that_of_the_load_commands<K: Kernel>(
    task: Task<K>,
    memory: spec_fn(int) -> u8,
    base: usize,
    size: usize,
) -> (cmds: Seq<LoadCommand>)
    requires
        shows(task, memory),
        task.may_measure(base, size),
    ensures
        task.may_read_commands(
            base,
            short_at(memory, base.wrapping_add(16) as int) as u32,
            cmds,
        ),
        size == macho::extent(cmds),
{
    let ncmds = choose|ncmds: Option<u32>| #[trigger]
        task.may_read_u32(base.wrapping_add(16), ncmds) && match ncmds {
            None => size == 0,
            Some(n) => exists|cmds: Seq<LoadCommand>| #[trigger]
                task.may_read_commands(base, n, cmds) && size == macho::extent(cmds),
        };
    shorts_yield_what_stands_there(task, memory, base.wrapping_add(16), ncmds);
    choose|cmds: Seq<LoadCommand>| #[trigger]
        task.may_read_commands(base, ncmds->Some_0, cmds) && size == macho::extent(cmds)
}

/// A load command is read from its kind and its size: there is none where either cannot be read or
/// the size is zero.
pub proof fn load_commands_follow_their_reads<K: Kernel>(
    task: Task<K>,
    at: usize,
    got: Option<LoadCommand>,
) -> (r: (Option<u32>, Option<u32>))
    requires
        task.may_read_command(at, got),
    ensures
        task.may_read_u32(at, r.0),
        r.0 is None ==> got is None,
        r.0 is Some ==> task.may_read_u32(at.wrapping_add(4), r.1),
        r.0 is Some && (r.1 is None || r.1->Some_0 == 0) ==> got is None,
        r.0 is Some && r.1 is Some && r.1->Some_0 != 0 ==> {
            &&& got is Some
            &&& got->Some_0.cmdsize == r.1->Some_0
            &&& got->Some_0.segment is Some <==> r.0->Some_0 == 0x19
            &&& got->Some_0.segment is Some ==> task.may_read_segment(
                at,
                got->Some_0.segment->Some_0,
            )
        },
{
    steady::lemma_command_parts(task, at, got)
}

/// A segment is read from its name, its start and its size; what cannot be read counts as zero, and
/// a name that cannot be read is not that of the guard.
pub proof fn segments_follow_their_reads<K: Kernel>(
    task: Task<K>,
    at: usize,
    seg: Segment,
) -> (r: (Option<Seq<u8>>, Option<u64>, Option<u64>))
    requires
        task.may_read_segment(at, seg),
    ensures
        task.may_read(at.wrapping_add(8), 16, r.0),
        task.may_read_u64(at.wrapping_add(24), r.1),
        task.may_read_u64(at.wrapping_add(32), r.2),
        seg.pagezero <==> r.0 is Some && r.0->Some_0.take(10) == seq![
            0x5fu8,
            0x5f,
            0x50,
            0x41,
            0x47,
            0x45,
            0x5a,
            0x45,
            0x52,
            0x4f,
        ],
        r.1 is None ==> seg.vmaddr == 0,
        r.1 is Some ==> seg.vmaddr == r.1->Some_0,
        r.2 is None ==> seg.vmsize == 0,
        r.2 is Some ==> seg.vmsize == r.2->Some_0,
{
    choose|name: Option<Seq<u8>>, v: Option<u64>, z: Option<u64>|
        #![trigger task.may_read(at.wrapping_add(8), 16, name), task.may_read_u64(
            at.wrapping_add(24),
            v,
        ), task.may_read_u64(at.wrapping_add(32), z)]
        {
            &&& task.may_read(at.wrapping_add(8), 16, name)
            &&& task.may_read_u64(at.wrapping_add(24), v)
            &&& task.may_read_u64(at.wrapping_add(32), z)
            &&& seg == Segment {
                pagezero: macho::names_pagezero(name),
                vmaddr: macho::or_zero(v),
                vmsize: macho::or_zero(z),
            }
        }
}

/// The load commands of an image are read one behind the other, as many as its header counts, up to
/// the first that cannot be read; without a count there is no extent.
pub proof fn extents_follow_their_reads<K: Kernel>(
    task: Task<K>,
    base: usize,
    size: usize,
) -> (r: (Option<u32>, Seq<LoadCommand>))
    requires
        task.may_measure(base, size),
    ensures
        task.may_read_u32(base.wrapping_add(16), r.0),
        r.0 is None ==> size == 0,
        r.0 is Some ==> {
            &&& size == macho::extent(r.1)
            &&& r.1.len() <= r.0->Some_0
            &&& forall|i: int|
                0 <= i < r.1.len() ==> task.may_read_command(
                    macho::command_addr(base, r.1, i),
                    Some(#[trigger] r.1[i]),
                )
            &&& r.1.len() < r.0->Some_0 ==> task.may_read_command(
                macho::command_addr(base, r.1, r.1.len() as int),
                None,
            )
        },
        macho::command_addr(base, r.1, 0) == base.wrapping_add(32),
        forall|i: int|
            0 < i <= r.1.len() ==> #[trigger] macho::command_addr(base, r.1, i)
                == macho::command_addr(base, r.1, i - 1).wrapping_add(r.1[i - 1].cmdsize as usize),
{
    let ncmds = choose|ncmds: Option<u32>| #[trigger]
        task.may_read_u32(base.wrapping_add(16), ncmds) && match ncmds {
            None => size == 0,
            Some(n) => exists|cmds: Seq<LoadCommand>| #[trigger]
                task.may_read_commands(base, n, cmds) && size == macho::extent(cmds),
        };
    if ncmds is Some {
        let cmds = choose|cmds: Seq<LoadCommand>| #[trigger]
            task.may_read_commands(base, ncmds->Some_0, cmds) && size == macho::extent(cmds);
        (ncmds, cmds)
    } else {
        (None, Seq::empty())
    }
}

/// A path is followed pointer by pointer: the first stands at its first location, each next one the
/// path's next offset behind where the one before leads. Behind the last comes the last offset,
/// without a read; a read that fails ends it without an address.
pub proof fn paths_follow_their_reads<K: Kernel>(
    mem: ProcMem<K>,
    r: Route,
    addr: Option<usize>,
) -> (hops: Seq<u64>)
    requires
        mem.may_resolve(r, addr),
    ensures
        forall|i: int|
            0 <= i < hops.len() ==> mem.task.may_read_u64(
                if i == 0 {
                    mem.base.wrapping_add(r.0)
                } else {
                    (hops[i - 1] as usize).wrapping_add(r.1[i - 1])
                },
                Some(#[trigger] hops[i]),
            ),
        addr is Some ==> {
            &&& hops.len() > 0
            &&& hops.len() == r.1.len() || (r.1.len() == 0 && hops.len() == 1)
            &&& r.1.len() > 0 ==> addr == Some((hops.last() as usize).wrapping_add(r.1.last()))
            &&& r.1.len() == 0 ==> addr == Some(hops.last() as usize)
        },
        addr is None ==> {
            &&& hops.len() < r.1.len() || (r.1.len() == 0 && hops.len() == 0)
            &&& mem.task.may_read_u64(
                if hops.len() == 0 {
                    mem.base.wrapping_add(r.0)
                } else {
                    (hops.last() as usize).wrapping_add(r.1[hops.len() - 1])
                },
                None,
            )
        },
{
    let hops = choose|hops: Seq<u64>| #[trigger]
        mem.may_follow(r, hops) && match addr {
            Some(a) => hops.len() == path::route_depth(r) && a == (
            hops.last() as usize).wrapping_add(resolve::final_offset(r)),
            None => hops.len() < path::route_depth(r) && mem.task.may_read_u64(
                mem.hop_addr(r, hops, hops.len() as int),
                None,
            ),
        };
    assert forall|i: int| 0 <= i < hops.len() implies mem.task.may_read_u64(
        if i == 0 {
            mem.base.wrapping_add(r.0)
        } else {
            (hops[i - 1] as usize).wrapping_add(r.1[i - 1])
        },
        Some(#[trigger] hops[i]),
    ) by {
        assert(mem.task.may_read_u64(mem.hop_addr(r, hops, i), Some(hops[i])));
    }
    hops
}

/// Attaching by name goes to the first process that goes by it: its task is asked for, then the load
/// address, and then the image is measured there. A refusal is told with the kernel's code, and
/// where no process goes by the name, that is told.
pub proof fn attaching_follows_the_replies<K: Kernel>(
    kernel: K,
    processes: Seq<Process>,
    name: Seq<char>,
    outcome: Result<ProcMem<K>, Seq<char>>,
    i: int,
) -> (r: (Result<u32, i32>, Result<usize, Seq<char>>))
    requires
        ProcMem::may_attach_by(kernel, processes, name, outcome),
        0 <= i <= processes.len(),
        forall|j: int| 0 <= j < i ==> !process::goes_by(#[trigger] processes[j], name),
        i < processes.len() ==> process::goes_by(processes[i], name),
    ensures
        i == processes.len() ==> outcome == Err::<ProcMem<K>, Seq<char>>(
            "Process '"@ + name + "' not found — is it running?"@,
        ),
        i < processes.len() ==> call_ensures(
            K::task_for_pid,
            (&kernel, processes[i].pid as i32),
            r.0,
        ),
        i < processes.len() && r.0 is Err ==> outcome == Err::<ProcMem<K>, Seq<char>>(
            "task_for_pid failed (mach error "@ + text::decimal(r.0->Err_0 as int)
                + "). Re-sign Rekordbox with get-task-allow: run ./resign_rekordbox.sh"@,
        ),
        i < processes.len() && r.0 is Ok ==> (Task { kernel, port: r.0->Ok_0 }).may_load_at(r.1),
        i < processes.len() && r.0 is Ok && r.1 is Err ==> outcome == Err::<ProcMem<K>, Seq<char>>(
            r.1->Err_0,
        ),
        i < processes.len() && r.0 is Ok && r.1 is Ok ==> {
            &&& outcome is Ok
            &&& outcome->Ok_0.task == (Task { kernel, port: r.0->Ok_0 })
            &&& outcome->Ok_0.pid == processes[i].pid as i32
            &&& outcome->Ok_0.base == r.1->Ok_0
            &&& outcome->Ok_0.task.may_measure(r.1->Ok_0, outcome->Ok_0.image_size)
        },
{
    if i == processes.len() {
        (Err(0), Err(Seq::empty()))
    } else {
        let pid = processes[i].pid as i32;
        assert(procmem::chosen(processes, name, i));
        let port = choose|port: Result<u32, i32>| #[trigger]
            call_ensures(K::task_for_pid, (&kernel, pid), port) && match port {
                Err(code) => outcome == Err::<ProcMem<K>, Seq<char>>(
                    procmem::task_message(code as int),
                ),
                Ok(port) => ProcMem::may_attach_task(Task { kernel, port }, pid, outcome),
            };
        if port is Err {
            (port, Err(Seq::empty()))
        } else {
            let task = Task { kernel, port: port->Ok_0 };
            let base = choose|base: Result<usize, Seq<char>>| #[trigger]
                task.may_load_at(base) && match base {
                    Err(message) => outcome == Err::<ProcMem<K>, Seq<char>>(message),
                    Ok(base) => outcome matches Ok(mem) && mem.task == task && mem.pid == pid
                        && mem.base == base && task.may_measure(base, mem.image_size),
                };
            (port, base)
        }
    }
}

/// The image of a process reaches from its load address on, as far as was measured, and the scans
/// walk over the pointers of the scanner and that image.
pub proof fn images_and_graphs_are_those_of_the_process<K: Kernel>(
    mem: ProcMem<K>,
    scanner: Scanner<K>,
    max_offset: usize,
)
    ensures
        mem.image_range().base == mem.base,
        mem.image_range().size == mem.image_size,
        scanner.graph(max_offset).ptrs == scanner.pointers(),
        scanner.graph(max_offset).image == scanner.memory().image_range(),
        scanner.graph(max_offset).max_offset == max_offset,
{
}

/// A region is read in chunks of eight mebibytes, the last one shorter, one behind the other, up to
/// the first that does not come whole. What was read is what the chunks hold, and nothing where they
/// hold nothing.
pub proof fn regions_follow_their_reads<K: Kernel>(
    task: Task<K>,
    r: Region,
    got: Option<Seq<u8>>,
) -> (replies: Seq<Option<Seq<u8>>>)
    requires
        task.may_read_region(r, got),
    ensures
        r.size == 0 <==> replies.len() == 0,
        forall|i: int|
            0 <= i < replies.len() ==> {
                let left = r.size - 8_388_608 * i;
                let want: int = if left < 8_388_608 {
                    left
                } else {
                    8_388_608
                };
                &&& left > 0
                &&& task.may_copy(
                    r.addr.wrapping_add((8_388_608 * i) as usize) as u64,
                    want as u64,
                    #[trigger] replies[i],
                )
                &&& i < replies.len() - 1 ==> replies[i] is Some && replies[i]->Some_0.len() == want
                &&& i == replies.len() - 1 ==> left <= 8_388_608 || replies[i] is None
                    || replies[i]->Some_0.len() != want
            },
        replies.map_values(
            |b: Option<Seq<u8>>|
                match b {
                    Some(b) => b,
                    None => Seq::<u8>::empty(),
                },
        ).flatten() == (match got {
            Some(b) => b,
            None => Seq::<u8>::empty(),
        }),
        got is Some ==> got->Some_0.len() > 0,
{
    let replies = choose|replies: Seq<Option<Seq<u8>>>| #[trigger]
        task.may_read_chunks(r, replies) && got == chunks::unless_empty(chunks::joined(replies));
    assert forall|i: int| 0 <= i < replies.len() implies {
        let left = r.size - 8_388_608 * i;
        let want: int = if left < 8_388_608 {
            left
        } else {
            8_388_608
        };
        &&& left > 0
        &&& task.may_copy(
            r.addr.wrapping_add((8_388_608 * i) as usize) as u64,
            want as u64,
            #[trigger] replies[i],
        )
        &&& i < replies.len() - 1 ==> replies[i] is Some && replies[i]->Some_0.len() == want
        &&& i == replies.len() - 1 ==> left <= 8_388_608 || replies[i] is None
            || replies[i]->Some_0.len() != want
    } by {
        assert(i * chunks::CHUNK == 8_388_608 * i);
        assert((i + 1) * chunks::CHUNK == 8_388_608 * i + 8_388_608);
        assert(i * chunks::CHUNK < r.size);
        assert(chunks::is_full(r, i, replies[i]) && (i + 1) * chunks::CHUNK < r.size <==> i
            < replies.len() - 1);
    }
    lemma_joined(replies);
    if got is None {
        assert(chunks::joined(replies) =~= Seq::empty());
    }
    replies
}

proof fn lemma_joined(replies: Seq<Option<Seq<u8>>>)
    ensures
        chunks::joined(replies) == replies.map_values(
            |b: Option<Seq<u8>>|
                match b {
                    Some(b) => b,
                    None => Seq::<u8>::empty(),
                },
        ).flatten(),
    decreases replies.len(),
{
    let f = |b: Option<Seq<u8>>|
        match b {
            Some(b) => b,
            None => Seq::<u8>::empty(),
        };
    let parts = replies.map_values(f);
    if replies.len() > 0 {
        lemma_joined(replies.drop_last());
        assert(parts.drop_last() =~= replies.drop_last().map_values(f));
        parts.lemma_flatten_and_flatten_alt_are_equivalent();
        parts.drop_last().lemma_flatten_and_flatten_alt_are_equivalent();
        assert(parts.last() == f(replies.last()));
    }
}

/// Reading regions reads each of them, in their order.
pub proof fn each_region_is_read<K: Kernel>(
    task: Task<K>,
    regions: Seq<Region>,
    bufs: Seq<Option<Seq<u8>>>,
    i: int,
)
    requires
        task.may_read_regions(regions, bufs),
    ensures
        bufs.len() == regions.len(),
        0 <= i < regions.len() ==> task.may_read_region(regions[i], bufs[i]),
{
}

/// What is told of an outcome is its value, or its message as it stands.
pub proof fn outcomes_are_told_as_they_are<T>(outcome: Result<T, String>)
    ensures
        outcome is Ok ==> procmem::told(outcome) == Ok::<T, Seq<char>>(outcome->Ok_0),
        outcome is Err ==> procmem::told(outcome) == Err::<T, Seq<char>>(outcome->Err_0@),
{
}

} // verus!
