//! Reading whole regions, in bounded chunks.
use crate::region::Region;
use crate::task;
use crate::task::{Kernel, Task};
use vstd::prelude::*;

verus! {

/// Read regions in bounded chunks so a single huge read never blocks.
pub const CHUNK: usize = 8_388_608;

/// The size of the `i`-th chunk of a region.
pub open spec fn chunk_size(r: Region, i: int) -> int {
    if r.size - i * CHUNK < CHUNK {
        r.size - i * CHUNK
    } else {
        CHUNK as int
    }
}

/// The `i`-th chunk of a region was read in full.
pub open spec fn is_full(r: Region, i: int, reply: Option<Seq<u8>>) -> bool {
    reply matches Some(b) && b.len() == chunk_size(r, i)
}

/// The bytes of all chunks, one behind the other.
pub open spec fn joined(replies: Seq<Option<Seq<u8>>>) -> Seq<u8>
    decreases replies.len(),
{
    if replies.len() == 0 {
        Seq::empty()
    } else {
        joined(replies.drop_last()) + (match replies.last() {
            Some(b) => b,
            None => Seq::empty(),
        })
    }
}

/// Bytes, unless there are none.
pub open spec fn unless_empty(b: Seq<u8>) -> Option<Seq<u8>> {
    if b.len() == 0 {
        None
    } else {
        Some(b)
    }
}

/// The bytes that were read of a region, where there are any.
pub open spec fn region_bytes(o: Option<(usize, Vec<u8>)>) -> Option<Seq<u8>> {
    match o {
        Some(p) => Some(p.1@),
        None => None,
    }
}

impl<K: Kernel> Task<K> {
    /// Reading a region chunk by chunk, up to the first that is not read in full, may yield these
    /// replies.
    pub open spec fn may_read_chunks(&self, r: Region, replies: Seq<Option<Seq<u8>>>) -> bool {
        &&& replies.len() == 0 <==> r.size == 0
        &&& forall|i: int|
            0 <= i < replies.len() ==> self.may_copy(
                r.addr.wrapping_add((i * CHUNK) as usize) as u64,
                chunk_size(r, i) as u64,
                #[trigger] replies[i],
            )
        &&& forall|i: int|
            0 <= i < replies.len() ==> i * CHUNK < r.size && (is_full(r, i, #[trigger] replies[i])
                && (i + 1) * CHUNK < r.size <==> i < replies.len() - 1)
    }

    /// Reading a region may yield `got`: what its chunks hold up to the first hole, if anything.
    pub open spec fn may_read_region(&self, r: Region, got: Option<Seq<u8>>) -> bool {
        exists|replies: Seq<Option<Seq<u8>>>| #[trigger]
            self.may_read_chunks(r, replies) && got == unless_empty(joined(replies))
    }

    /// Reading each of some regions may yield `bufs`.
    pub open spec fn may_read_regions(
        &self,
        regions: Seq<Region>,
        bufs: Seq<Option<Seq<u8>>>,
    ) -> bool {
        &&& bufs.len() == regions.len()
        &&& forall|i: int|
            0 <= i < regions.len() ==> self.may_read_region(regions[i], #[trigger] bufs[i])
    }

    /// Reads a region fully, in chunks, up to the first hole. Returns its address and the bytes.
    pub fn read_region(&self, r: &Region) -> (got: Option<(usize, Vec<u8>)>)
        ensures
            self.may_read_region(*r, region_bytes(got)),
            got matches Some(p) ==> p.0 == r.addr,
    {
        let mut out: Vec<u8> = Vec::new();
        let mut off: usize = 0;
        let mut going = true;
        let ghost mut replies: Seq<Option<Seq<u8>>> = Seq::empty();
        while going && off < r.size
            invariant
                off <= r.size,
                going && off < r.size ==> off == replies.len() * CHUNK,
                replies.len() == 0 ==> going && off == 0,
                r.size == 0 ==> replies.len() == 0,
                out@ == joined(replies),
                forall|i: int|
                    0 <= i < replies.len() ==> self.may_copy(
                        r.addr.wrapping_add((i * CHUNK) as usize) as u64,
                        chunk_size(*r, i) as u64,
                        #[trigger] replies[i],
                    ),
                forall|i: int|
                    0 <= i < replies.len() ==> i * CHUNK < r.size && (is_full(
                        *r,
                        i,
                        #[trigger] replies[i],
                    ) && (i + 1) * CHUNK < r.size <==> i < replies.len() - 1 || (going && off
                        < r.size)),
            decreases
                    (if going {
                        1int
                    } else {
                        0
                    }) + (r.size - off),
        {
            let want = if r.size - off < CHUNK {
                r.size - off
            } else {
                CHUNK
            };
            let ghost n = replies.len() as int;
            let ghost before = replies;
            let reply = self.read_bytes(r.addr.wrapping_add(off), want);
            let ghost out0 = out@;
            proof {
                replies = before.push(task::as_bytes(reply));
                assert(replies.drop_last() =~= before);
                assert(want == chunk_size(*r, n));
                assert((n + 1) * CHUNK == off + CHUNK);
            }
            match reply {
                Some(b) => {
                    let len = b.len();
                    let mut part = b;
                    let ghost part0 = part@;
                    out.append(&mut part);
                    assert(out@ =~= out0 + part0);
                    if len < want {
                        // hit an unreadable hole
                        going = false;
                    } else {
                        off = off + want;
                    }
                },
                None => {
                    going = false;
                    assert(out@ =~= out0 + Seq::empty());
                },
            }
        }
        assert(self.may_read_chunks(*r, replies));
        if out.len() == 0 {
            None
        } else {
            Some((r.addr, out))
        }
    }
}

/// The bytes of full chunks, one behind the other, keep their place.
proof fn lemma_joined(replies: Seq<Option<Seq<u8>>>)
    requires
        replies.len() > 0,
        forall|i: int|
            0 <= i < replies.len() - 1 ==> #[trigger] replies[i] is Some
                && replies[i]->Some_0.len() == CHUNK,
        replies.last() is Some ==> replies.last()->Some_0.len() <= CHUNK,
    ensures
        joined(replies).len() == (replies.len() - 1) * CHUNK + (match replies.last() {
            Some(b) => b.len() as int,
            None => 0,
        }),
        forall|i: int, k: int|
            #![trigger replies[i]->Some_0[k]]
            0 <= i < replies.len() && replies[i] is Some && 0 <= k < replies[i]->Some_0.len()
                ==> joined(replies)[i * CHUNK + k] == replies[i]->Some_0[k],
    decreases replies.len(),
{
    let init = replies.drop_last();
    let n = replies.len() - 1;
    if n == 0 {
        assert(joined(init) =~= Seq::empty());
    } else {
        lemma_joined(init);
        assert(init.last() == replies[n - 1]);
        assert((n - 1) * CHUNK + CHUNK == n * CHUNK);
        assert forall|i: int, k: int|
            #![trigger replies[i]->Some_0[k]]
            0 <= i < replies.len() && replies[i] is Some && 0 <= k
                < replies[i]->Some_0.len() implies joined(replies)[i * CHUNK + k]
            == replies[i]->Some_0[k] by {
            if i < n {
                assert(init[i]->Some_0[k] == replies[i]->Some_0[k]);
                assert(i * CHUNK + CHUNK <= n * CHUNK);
            }
        }
    }
}

/// Reading a region asks for no more than a chunk at a time and yields no more bytes than the
/// region has; each byte stands as far behind the region's start as it was read; and where the last
/// chunk was read in full too, the whole region has been read.
pub proof fn region_reads_keep_their_place<K: Kernel>(
    task: &Task<K>,
    r: Region,
    replies: Seq<Option<Seq<u8>>>,
)
    requires
        task.may_read_chunks(r, replies),
    ensures
        forall|i: int| #[trigger] chunk_size(r, i) <= CHUNK,
        joined(replies).len() <= r.size,
        forall|i: int, k: int|
            #![trigger replies[i]->Some_0[k]]
            0 <= i < replies.len() && replies[i] is Some && 0 <= k < replies[i]->Some_0.len()
                ==> joined(replies)[i * CHUNK + k] == replies[i]->Some_0[k],
        replies.len() > 0 && is_full(r, replies.len() - 1, replies.last())
            ==> joined(replies).len() == r.size,
{
    if replies.len() > 0 {
        let n = replies.len() - 1;
        assert forall|i: int| 0 <= i < n implies #[trigger] replies[i] is Some
            && replies[i]->Some_0.len() == CHUNK by {
            assert((i + 1) * CHUNK == i * CHUNK + CHUNK);
        }
        assert(task.may_copy(
            r.addr.wrapping_add((n * CHUNK) as usize) as u64,
            chunk_size(r, n) as u64,
            replies[n],
        ));
        assert((n + 1) * CHUNK == n * CHUNK + CHUNK);
        lemma_joined(replies);
    }
}

/// Any part of a region, read in one go, yields what `memory` holds there.
pub open spec fn all_readable<K: Kernel>(
    task: &Task<K>,
    r: Region,
    memory: spec_fn(int) -> u8,
) -> bool {
    forall|off: int, size: int, got: Option<Seq<u8>>|
        #![trigger task.may_copy((r.addr + off) as u64, size as u64, got)]
        0 <= off && 0 <= size <= CHUNK && off + size <= r.size && task.may_copy(
            (r.addr + off) as u64,
            size as u64,
            got,
        ) ==> got == Some(Seq::new(size as nat, |k: int| memory(r.addr + off + k)))
}

/// Where all of a region is readable, reading it yields all of it.
pub proof fn readable_regions_are_read_whole<K: Kernel>(
    task: &Task<K>,
    r: Region,
    memory: spec_fn(int) -> u8,
    got: Option<Seq<u8>>,
)
    requires
        r.size > 0,
        r.addr + r.size <= usize::MAX,
        all_readable(task, r, memory),
        task.may_read_region(r, got),
    ensures
        got == Some(Seq::new(r.size as nat, |i: int| memory(r.addr + i))),
{
    let replies = choose|replies: Seq<Option<Seq<u8>>>| #[trigger]
        task.may_read_chunks(r, replies) && got == unless_empty(joined(replies));
    let n = replies.len() - 1;
    let all = joined(replies);
    region_reads_keep_their_place(task, r, replies);
    assert forall|i: int| 0 <= i < replies.len() implies is_full(r, i, #[trigger] replies[i]) && (
    forall|k: int|
        0 <= k < chunk_size(r, i) ==> #[trigger] replies[i]->Some_0[k] == memory(
            r.addr + i * CHUNK + k,
        )) by {
        let off = i * CHUNK;
        let size = chunk_size(r, i);
        assert(r.addr.wrapping_add(off as usize) == r.addr + off);
        assert(task.may_copy((r.addr + off) as u64, size as u64, replies[i]));
    }
    assert(is_full(r, n, replies[n]));
    assert forall|j: int| 0 <= j < r.size implies all[j] == memory(r.addr + j) by {
        let i = j / CHUNK as int;
        let k = j % CHUNK as int;
        assert(j == i * CHUNK + k);
        assert(i <= n) by {
            assert((n + 1) * CHUNK >= r.size);
        }
        assert(0 <= k < chunk_size(r, i));
        assert(is_full(r, i, replies[i]));
        assert(replies[i]->Some_0[k] == memory(r.addr + i * CHUNK + k));
    }
    assert(all =~= Seq::new(r.size as nat, |i: int| memory(r.addr + i)));
}

} // verus!
