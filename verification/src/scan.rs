//! Memory scanner and reverse pointer scanner.
//!
//! Given a target absolute address (found via a known value like a beat count or a unique title
//! string), the reverse pointer scanner walks the object graph backwards to the main image's static
//! data, producing pointer chains in the offset-file format.
use crate::bytes;
use crate::bytes::{kept_words, le_word, push_near_words, push_pattern_hits, utf16_bytes};
use crate::chunks;
use crate::joint;
use crate::joint::Roots;
use crate::meaning;
use crate::path;
use crate::path::{PointerPath, ScanOpts};
use crate::pointers::{Pointer, PointerMap};
use crate::procmem::ProcMem;
use crate::region;
use crate::region::{Image, Region, RegionTable};
use crate::reverse;
use crate::snapshot;
use crate::sort;
use crate::task;
use crate::task::{Kernel, VmRegion};
use crate::text::chars_of;
use vstd::prelude::*;
use vstd::slice::slice_to_vec;
use vstd::string::StringSliceAdditionalSpecFns;

verus! {

/// What `f` makes of each region that could be read, one behind the other.
pub open spec fn gathered<T>(
    regions: Seq<Region>,
    bufs: Seq<Option<Seq<u8>>>,
    f: spec_fn(usize, Seq<u8>) -> Seq<T>,
) -> Seq<T>
    decreases regions.len(),
{
    if regions.len() == 0 {
        Seq::empty()
    } else {
        gathered(regions.drop_last(), bufs.drop_last(), f) + (match bufs.last() {
            Some(b) => f(regions.last().addr, b),
            None => Seq::empty(),
        })
    }
}

/// The next region adds what `f` makes of it.
proof fn lemma_gathered_next<T>(
    regions: Seq<Region>,
    bufs: Seq<Option<Seq<u8>>>,
    i: int,
    buf: Option<Seq<u8>>,
    f: spec_fn(usize, Seq<u8>) -> Seq<T>,
)
    requires
        0 <= i < regions.len(),
        bufs.len() == i,
    ensures
        gathered(regions.take(i + 1), bufs.push(buf), f) == gathered(regions.take(i), bufs, f) + (
        match buf {
            Some(b) => f(regions[i].addr, b),
            None => Seq::empty(),
        }),
{
    assert(regions.take(i + 1).drop_last() =~= regions.take(i));
    assert(bufs.push(buf).drop_last() =~= bufs);
}

/// The words near a target in a region.
pub open spec fn near_in(target: i64, tol: i64) -> spec_fn(usize, Seq<u8>) -> Seq<usize> {
    |addr: usize, buf: Seq<u8>| bytes::near_words(addr, buf, target, tol)
}

/// The matches of a text in a region: first those of its UTF-8 form, then those of its UTF-16LE
/// form.
pub open spec fn text_in(text: Seq<char>) -> spec_fn(usize, Seq<u8>) -> Seq<usize> {
    |addr: usize, buf: Seq<u8>|
        bytes::pattern_hits(addr, buf, vstd::utf8::encode_utf8(text)) + bytes::pattern_hits(
            addr,
            buf,
            bytes::utf16_text(text),
        )
}

/// A region and its bytes.
pub open spec fn whole() -> spec_fn(usize, Seq<u8>) -> Seq<(usize, Seq<u8>)> {
    |addr: usize, buf: Seq<u8>| seq![(addr, buf)]
}

/// The `k`-th eight-byte word of a region, if it points into a readable region.
pub open spec fn pointer_word(regions: Seq<Region>, addr: usize, buf: Seq<u8>) -> spec_fn(
    int,
) -> Option<Pointer> {
    |k: int|
        {
            let v = bytes::le_at(buf, 8 * k, 8) as u64;
            if region::readable(regions, v as usize) {
                Some((v, addr.wrapping_add((8 * k) as usize)))
            } else {
                None
            }
        }
}

/// The eight-byte words of a region that point into a readable region.
pub open spec fn pointers_in(regions: Seq<Region>) -> spec_fn(usize, Seq<u8>) -> Seq<Pointer> {
    |addr: usize, buf: Seq<u8>|
        bytes::picks(buf.len() as int / 8, pointer_word(regions, addr, buf))
}

/// A region may hold live pointers and values: it is writable, or starts in the main image.
pub open spec fn scannable(image: Image) -> spec_fn(Region) -> bool {
    |r: Region| r.writable || image.holds(r.addr)
}

/// Being no larger than `max`.
pub open spec fn sized(max: usize) -> spec_fn(Region) -> bool {
    |r: Region| r.size <= max
}

/// Lying in the image.
pub open spec fn located(image: Image) -> spec_fn(Pointer) -> bool {
    |e: Pointer| image.holds(e.1)
}

/// The sum of the sizes, as the machine adds them up.
pub open spec fn total_size(regions: Seq<Region>) -> usize
    decreases regions.len(),
{
    if regions.len() == 0 {
        0
    } else {
        total_size(regions.drop_last()).wrapping_add(regions.last().size)
    }
}

/// All parts, one behind the other.
pub open spec fn concatenated(parts: Seq<Seq<usize>>) -> Seq<usize>
    decreases parts.len(),
{
    if parts.len() == 0 {
        Seq::empty()
    } else {
        concatenated(parts.drop_last()) + parts.last()
    }
}

/// Adds to `out` the eight-byte words of a buffer read at `addr` that point into a readable region.
pub fn push_pointers(table: &RegionTable, addr: usize, buf: &Vec<u8>, out: &mut Vec<Pointer>)
    ensures
        final(out)@ == old(out)@ + pointers_in(table@)(addr, buf@),
{
    let ghost f = pointer_word(table@, addr, buf@);
    let len = buf.len();
    let n = len / 8;
    let mut k: usize = 0;
    proof {
        bytes::picks_next(0, f);
        assert(out@ =~= old(out)@ + bytes::picks(0, f));
    }
    while k < n
        invariant
            k <= n,
            n == len / 8,
            len == buf@.len(),
            f == pointer_word(table@, addr, buf@),
            out@ == old(out)@ + bytes::picks(k as int, f),
        decreases n - k,
    {
        let v = le_word(buf.as_slice(), 8 * k, 8);
        if table.is_readable(v as usize) {
            out.push((v, addr.wrapping_add(8 * k)));
        }
        proof {
            bytes::picks_next(k as int, f);
            assert(out@ =~= old(out)@ + bytes::picks(k + 1, f));
        }
        k = k + 1;
    }
}

/// The regions that pass a filter on their size.
fn regions_sized(regions: &Vec<Region>, max: usize) -> (kept: Vec<Region>)
    ensures
        kept@ == regions@.filter(sized(max)),
{
    reveal(Seq::filter);
    let mut kept: Vec<Region> = Vec::new();
    let mut i: usize = 0;
    assert(regions@.take(0) =~= Seq::empty());
    while i < regions.len()
        invariant
            i <= regions@.len(),
            kept@ == regions@.take(i as int).filter(sized(max)),
        decreases regions.len() - i,
    {
        reveal(Seq::filter);
        let r = regions[i];
        assert(regions@.take(i + 1).drop_last() =~= regions@.take(i as int));
        if r.size <= max {
            kept.push(r);
        }
        i = i + 1;
    }
    assert(regions@.take(i as int) =~= regions@);
    kept
}

/// The regions that may hold live pointers and values.
fn regions_scannable(regions: &Vec<Region>, image: Image) -> (kept: Vec<Region>)
    ensures
        kept@ == regions@.filter(scannable(image)),
{
    reveal(Seq::filter);
    let mut kept: Vec<Region> = Vec::new();
    let mut i: usize = 0;
    assert(regions@.take(0) =~= Seq::empty());
    while i < regions.len()
        invariant
            i <= regions@.len(),
            kept@ == regions@.take(i as int).filter(scannable(image)),
        decreases regions.len() - i,
    {
        reveal(Seq::filter);
        let r = regions[i];
        assert(regions@.take(i + 1).drop_last() =~= regions@.take(i as int));
        if r.writable || image.contains(r.addr) {
            kept.push(r);
        }
        i = i + 1;
    }
    assert(regions@.take(i as int) =~= regions@);
    kept
}

/// A scanner of one process.
pub struct Scanner<'a, K: Kernel> {
    pub mem: &'a ProcMem<K>,
    /// Readable regions, sorted by address.
    table: RegionTable,
    /// Regions we treat as candidate holders of live pointers/values
    /// (writable heap/data, or the main image), sorted by address.
    scan_regions: Vec<Region>,
    /// Pointer map: (pointer value, location holding it), sorted by value.
    ptr_map: PointerMap,
}

impl<'a, K: Kernel> Scanner<'a, K> {
    /// The process that is scanned.
    pub closed spec fn memory(&self) -> &'a ProcMem<K> {
        self.mem
    }

    /// The readable regions, by address.
    pub closed spec fn regions(&self) -> Seq<Region> {
        self.table@
    }

    /// The regions that are scanned, by address.
    pub closed spec fn scanned(&self) -> Seq<Region> {
        self.scan_regions@
    }

    /// The pointer map.
    pub closed spec fn pointers(&self) -> Seq<Pointer> {
        self.ptr_map@
    }

    /// A scanner for regions that were enumerated before.
    pub fn with_regions(mem: &'a ProcMem<K>, regions: Vec<Region>) -> (s: Self)
        ensures
            s.memory() == mem,
            sort::stable_sort_of(regions@, s.regions(), sort::own_rank()),
            s.scanned() == s.regions().filter(scannable(mem.image_range())),
            s.pointers() == Seq::<Pointer>::empty(),
    {
        let table = RegionTable::new(regions);
        let scan_regions = regions_scannable(table.regions(), mem.image());
        Scanner { mem, table, scan_regions, ptr_map: PointerMap::empty() }
    }

    pub fn new(mem: &'a ProcMem<K>) -> (s: Self)
        ensures
            s.memory() == mem,
            exists|replies: Seq<Result<VmRegion, i32>>| #[trigger]
                mem.task.may_report(replies) && sort::stable_sort_of(
                    task::all_reported(replies),
                    s.regions(),
                    sort::own_rank(),
                ),
            s.scanned() == s.regions().filter(scannable(mem.image_range())),
            s.pointers() == Seq::<Pointer>::empty(),
    {
        Self::with_regions(mem, mem.enumerate_regions())
    }

    pub fn total_scan_bytes(&self) -> (total: usize)
        ensures
            total == total_size(self.scanned()),
    {
        let mut total: usize = 0;
        let mut i: usize = 0;
        let ghost regions = self.scan_regions@;
        assert(regions.take(0) =~= Seq::empty());
        while i < self.scan_regions.len()
            invariant
                i <= self.scan_regions@.len(),
                regions == self.scan_regions@,
                total == total_size(regions.take(i as int)),
            decreases self.scan_regions.len() - i,
        {
            assert(regions.take(i + 1).drop_last() =~= regions.take(i as int));
            total = total.wrapping_add(self.scan_regions[i].size);
            i = i + 1;
        }
        assert(regions.take(i as int) =~= regions);
        total
    }

    /// Whether an address lies in a readable region.
    pub fn addr_readable(&self, addr: usize) -> (yes: bool)
        ensures
            yes == region::readable(self.regions(), addr),
            yes <==> exists|i: int|
                0 <= i < self.regions().len() && (#[trigger] self.regions()[i]).addr <= addr && addr
                    < self.regions()[i].addr + self.regions()[i].size && addr < usize::MAX,
    {
        proof {
            meaning::readable_addresses_lie_in_a_region(self.regions(), addr);
        }
        self.table.is_readable(addr)
    }

    // ---- Value scans -----------------------------------------------------

    /// All 4-aligned addresses holding a word that `test` holds of.
    pub fn find_u32_where<F: Fn(u32) -> bool>(&self, test: F) -> (hits: Vec<usize>)
        requires
            forall|w: u32| #[trigger] test.requires((w,)),
        ensures
            exists|bufs: Seq<Option<Seq<u8>>>, parts: Seq<Seq<usize>>|
                #![trigger self.memory().task.may_read_regions(self.scanned(), bufs), concatenated(
                    parts,
                )]
                {
                    &&& self.memory().task.may_read_regions(self.scanned(), bufs)
                    &&& parts.len() == bufs.len()
                    &&& forall|i: int|
                        0 <= i < parts.len() ==> match bufs[i] {
                            Some(b) => bytes::may_keep(
                                test,
                                self.scanned()[i].addr,
                                b,
                                #[trigger] parts[i],
                            ),
                            None => parts[i] == Seq::<usize>::empty(),
                        }
                    &&& hits@ == concatenated(parts)
                },
    {
        let mut hits: Vec<usize> = Vec::new();
        let ghost mut bufs: Seq<Option<Seq<u8>>> = Seq::empty();
        let ghost mut parts: Seq<Seq<usize>> = Seq::empty();
        let ghost regions = self.scan_regions@;
        let mut i: usize = 0;
        while i < self.scan_regions.len()
            invariant
                i <= regions.len(),
                regions == self.scan_regions@,
                bufs.len() == i,
                parts.len() == i,
                hits@ == concatenated(parts),
                forall|w: u32| #[trigger] test.requires((w,)),
                forall|j: int|
                    0 <= j < i ==> self.mem.task.may_read_region(regions[j], #[trigger] bufs[j]),
                forall|j: int|
                    0 <= j < i ==> match bufs[j] {
                        Some(b) => bytes::may_keep(test, regions[j].addr, b, #[trigger] parts[j]),
                        None => parts[j] == Seq::<usize>::empty(),
                    },
            decreases regions.len() - i,
        {
            let r = self.scan_regions[i];
            let got = self.mem.task.read_region(&r);
            let ghost got_bytes = chunks::region_bytes(got);
            let ghost hits0 = hits@;
            let ghost mut part: Seq<usize> = Seq::empty();
            match got {
                Some((addr, buf)) => {
                    let found = kept_words(addr, &buf, &test);
                    proof {
                        part = found@;
                    }
                    let mut more = found;
                    hits.append(&mut more);
                },
                None => {},
            }
            proof {
                assert(parts.push(part).drop_last() =~= parts);
                assert(hits@ =~= hits0 + part);
                bufs = bufs.push(got_bytes);
                parts = parts.push(part);
            }
            i = i + 1;
        }
        assert(self.memory().task.may_read_regions(self.scanned(), bufs));
        hits
    }

    /// All 8-aligned addresses holding an i64 within `tol` of `target`.
    pub fn find_i64_near(&self, target: i64, tol: i64) -> (hits: Vec<usize>)
        ensures
            exists|bufs: Seq<Option<Seq<u8>>>| #[trigger]
                self.memory().task.may_read_regions(self.scanned(), bufs) && hits@ == gathered(
                    self.scanned(),
                    bufs,
                    near_in(target, tol),
                ),
    {
        let mut hits: Vec<usize> = Vec::new();
        let ghost mut bufs: Seq<Option<Seq<u8>>> = Seq::empty();
        let ghost regions = self.scan_regions@;
        let ghost f = near_in(target, tol);
        let mut i: usize = 0;
        while i < self.scan_regions.len()
            invariant
                i <= regions.len(),
                regions == self.scan_regions@,
                f == near_in(target, tol),
                bufs.len() == i,
                hits@ == gathered(regions.take(i as int), bufs, f),
                forall|j: int|
                    0 <= j < i ==> self.mem.task.may_read_region(regions[j], #[trigger] bufs[j]),
            decreases regions.len() - i,
        {
            let r = self.scan_regions[i];
            let got = self.mem.task.read_region(&r);
            let ghost got_bytes = chunks::region_bytes(got);
            let ghost hits0 = hits@;
            match got {
                Some((addr, buf)) => {
                    push_near_words(addr, &buf, target, tol, &mut hits);
                },
                None => {
                    assert(hits@ =~= hits0 + Seq::empty());
                },
            }
            proof {
                lemma_gathered_next(regions, bufs, i as int, got_bytes, f);
                bufs = bufs.push(got_bytes);
            }
            i = i + 1;
        }
        assert(regions.take(i as int) =~= regions);
        assert(self.memory().task.may_read_regions(self.scanned(), bufs));
        hits
    }

    /// Search for a byte pattern (ASCII) and its UTF-16LE form. Returns the
    /// start addresses of matches.
    pub fn find_string(&self, needle: &str) -> (hits: Vec<usize>)
        ensures
            exists|bufs: Seq<Option<Seq<u8>>>| #[trigger]
                self.memory().task.may_read_regions(self.scanned(), bufs) && hits@ == gathered(
                    self.scanned(),
                    bufs,
                    text_in(needle@),
                ),
    {
        let ascii: Vec<u8> = slice_to_vec(needle.as_bytes());
        let utf16: Vec<u8> = utf16_bytes(&chars_of(needle));
        let mut hits: Vec<usize> = Vec::new();
        let ghost mut bufs: Seq<Option<Seq<u8>>> = Seq::empty();
        let ghost regions = self.scan_regions@;
        let ghost f = text_in(needle@);
        let mut i: usize = 0;
        while i < self.scan_regions.len()
            invariant
                i <= regions.len(),
                regions == self.scan_regions@,
                f == text_in(needle@),
                ascii@ == vstd::utf8::encode_utf8(needle@),
                utf16@ == bytes::utf16_text(needle@),
                bufs.len() == i,
                hits@ == gathered(regions.take(i as int), bufs, f),
                forall|j: int|
                    0 <= j < i ==> self.mem.task.may_read_region(regions[j], #[trigger] bufs[j]),
            decreases regions.len() - i,
        {
            let r = self.scan_regions[i];
            let got = self.mem.task.read_region(&r);
            let ghost got_bytes = chunks::region_bytes(got);
            let ghost hits0 = hits@;
            match got {
                Some((addr, buf)) => {
                    push_pattern_hits(addr, &buf, &ascii, &mut hits);
                    push_pattern_hits(addr, &buf, &utf16, &mut hits);
                    assert(hits@ =~= hits0 + f(addr, buf@));
                },
                None => {
                    assert(hits@ =~= hits0 + Seq::empty());
                },
            }
            proof {
                lemma_gathered_next(regions, bufs, i as int, got_bytes, f);
                bufs = bufs.push(got_bytes);
            }
            i = i + 1;
        }
        assert(regions.take(i as int) =~= regions);
        assert(self.memory().task.may_read_regions(self.scanned(), bufs));
        hits
    }

    // ---- Byte snapshots (for small values like masterdeck index) --------

    fn snapshot_regions(&self, regions: &Vec<Region>) -> (snap: Vec<(usize, Vec<u8>)>)
        ensures
            exists|bufs: Seq<Option<Seq<u8>>>| #[trigger]
                self.memory().task.may_read_regions(regions@, bufs) && snapshot::snapshot_of(snap@)
                    == gathered(regions@, bufs, whole()),
    {
        let mut snap: Vec<(usize, Vec<u8>)> = Vec::new();
        let ghost mut bufs: Seq<Option<Seq<u8>>> = Seq::empty();
        let ghost f = whole();
        let mut i: usize = 0;
        assert(snapshot::snapshot_of(snap@) =~= Seq::empty());
        while i < regions.len()
            invariant
                i <= regions@.len(),
                f == whole(),
                bufs.len() == i,
                snapshot::snapshot_of(snap@) == gathered(regions@.take(i as int), bufs, f),
                forall|j: int|
                    0 <= j < i ==> self.mem.task.may_read_region(regions@[j], #[trigger] bufs[j]),
            decreases regions.len() - i,
        {
            let r = regions[i];
            let got = self.mem.task.read_region(&r);
            let ghost got_bytes = chunks::region_bytes(got);
            let ghost snap0 = snapshot::snapshot_of(snap@);
            match got {
                Some((addr, buf)) => {
                    let ghost b = buf@;
                    snap.push((addr, buf));
                    assert(snapshot::snapshot_of(snap@) =~= snap0 + seq![(addr, b)]);
                },
                None => {
                    assert(snap0 =~= snap0 + Seq::empty());
                },
            }
            proof {
                lemma_gathered_next(regions@, bufs, i as int, got_bytes, f);
                bufs = bufs.push(got_bytes);
            }
            i = i + 1;
        }
        assert(regions@.take(i as int) =~= regions@);
        assert(self.memory().task.may_read_regions(regions@, bufs));
        snap
    }

    /// Snapshot the bytes of all scan regions.
    pub fn snapshot(&self) -> (snap: Vec<(usize, Vec<u8>)>)
        ensures
            exists|bufs: Seq<Option<Seq<u8>>>| #[trigger]
                self.memory().task.may_read_regions(self.scanned(), bufs) && snapshot::snapshot_of(snap@)
                    == gathered(self.scanned(), bufs, whole()),
    {
        let snap = self.snapshot_regions(&self.scan_regions);
        proof {
            let bufs = choose|bufs: Seq<Option<Seq<u8>>>| #[trigger]
                self.mem.task.may_read_regions(self.scan_regions@, bufs) && snapshot::snapshot_of(
                    snap@,
                ) == gathered(self.scan_regions@, bufs, whole());
            assert(self.memory().task.may_read_regions(self.scanned(), bufs));
        }
        snap
    }

    /// Snapshot only regions up to `max_region` bytes (skips huge media/GPU
    /// buffers). Small enumerated values like the master index live in ordinary
    /// heap allocations, so this keeps the byte-diff cheap.
    pub fn snapshot_capped(&self, max_region: usize) -> (snap: Vec<(usize, Vec<u8>)>)
        ensures
            exists|bufs: Seq<Option<Seq<u8>>>| #[trigger]
                self.memory().task.may_read_regions(self.scanned().filter(sized(max_region)), bufs)
                    && snapshot::snapshot_of(snap@) == gathered(
                    self.scanned().filter(sized(max_region)),
                    bufs,
                    whole(),
                ),
    {
        let capped = regions_sized(&self.scan_regions, max_region);
        let snap = self.snapshot_regions(&capped);
        proof {
            let bufs = choose|bufs: Seq<Option<Seq<u8>>>| #[trigger]
                self.mem.task.may_read_regions(capped@, bufs) && snapshot::snapshot_of(snap@)
                    == gathered(capped@, bufs, whole());
            assert(self.memory().task.may_read_regions(
                self.scanned().filter(sized(max_region)),
                bufs,
            ));
        }
        snap
    }

    /// Addresses where the byte equals `want_a` in snapshot `a` and `want_b`
    /// in snapshot `b` (a change detector for enumerated small values). Regions
    /// are matched by address, not position.
    pub fn diff_byte(
        a: &[(usize, Vec<u8>)],
        b: &[(usize, Vec<u8>)],
        want_a: u8,
        want_b: u8,
    ) -> (hits: Vec<usize>)
        ensures
            hits@ == snapshot::changes(
                snapshot::snapshot_of(a@),
                snapshot::snapshot_of(b@),
                want_a,
                want_b,
            ),
    {
        snapshot::diff_byte(a, b, want_a, want_b)
    }

    // ---- Pointer map + reverse scan -------------------------------------

    /// Build the pointer map: every 8-aligned word whose value points into a
    /// readable region. Call once before `reverse_scan`.
    pub fn build_pointer_map(&mut self)
        ensures
            final(self).memory() == old(self).memory(),
            final(self).regions() == old(self).regions(),
            final(self).scanned() == old(self).scanned(),
            exists|bufs: Seq<Option<Seq<u8>>>| #[trigger]
                old(self).memory().task.may_read_regions(old(self).scanned(), bufs)
                    && sort::stable_sort_of(
                    gathered(old(self).scanned(), bufs, pointers_in(old(self).regions())),
                    final(self).pointers(),
                    sort::own_rank(),
                ),
    {
        let mut map: Vec<Pointer> = Vec::new();
        let ghost mut bufs: Seq<Option<Seq<u8>>> = Seq::empty();
        let ghost regions = self.scan_regions@;
        let ghost f = pointers_in(self.table@);
        let mut i: usize = 0;
        while i < self.scan_regions.len()
            invariant
                i <= regions.len(),
                *self == *old(self),
                regions == self.scan_regions@,
                f == pointers_in(self.table@),
                bufs.len() == i,
                map@ == gathered(regions.take(i as int), bufs, f),
                forall|j: int|
                    0 <= j < i ==> self.mem.task.may_read_region(regions[j], #[trigger] bufs[j]),
            decreases regions.len() - i,
        {
            let r = self.scan_regions[i];
            let got = self.mem.task.read_region(&r);
            let ghost got_bytes = chunks::region_bytes(got);
            let ghost map0 = map@;
            match got {
                Some((addr, buf)) => {
                    push_pointers(&self.table, addr, &buf, &mut map);
                },
                None => {
                    assert(map@ =~= map0 + Seq::empty());
                },
            }
            proof {
                lemma_gathered_next(regions, bufs, i as int, got_bytes, f);
                bufs = bufs.push(got_bytes);
            }
            i = i + 1;
        }
        assert(regions.take(i as int) =~= regions);
        assert(self.memory().task.may_read_regions(self.scanned(), bufs));
        self.ptr_map = PointerMap::new(map);
    }

    /// Pointer-map entries whose location is in the main image's static range
    /// (i.e. candidate static base pointers). Requires `build_pointer_map`.
    pub fn static_pointers(&self) -> (found: Vec<Pointer>)
        ensures
            found@ == self.pointers().filter(located(self.memory().image_range())),
    {
        reveal(Seq::filter);
        let entries = self.ptr_map.entries();
        let mut found: Vec<Pointer> = Vec::new();
        let mut i: usize = 0;
        assert(entries@.take(0) =~= Seq::empty());
        while i < entries.len()
            invariant
                i <= entries@.len(),
                found@ == entries@.take(i as int).filter(located(self.mem.image_range())),
            decreases entries.len() - i,
        {
            reveal(Seq::filter);
            let e = entries[i];
            assert(entries@.take(i + 1).drop_last() =~= entries@.take(i as int));
            if self.mem.in_static_range(e.1) {
                found.push(e);
            }
            i = i + 1;
        }
        assert(entries@.take(i as int) =~= entries@);
        found
    }

    /// What the reverse scans walk over.
    pub open spec fn graph(&self, max_offset: usize) -> reverse::Graph {
        reverse::Graph { ptrs: self.pointers(), image: self.memory().image_range(), max_offset }
    }

    /// Reverse pointer scan from `target` to static image data.
    ///
    /// Iterative deepening: search exact 1-hop chains, then 2-hop, etc., up to
    /// `max_depth`, accumulating results at every depth. Shortest chains come
    /// first, but longer ones are kept too: a value often
    /// has a short "alias" chain plus a longer canonical deck-array chain, and
    /// only the latter strides across decks. The caller disambiguates.
    pub fn reverse_scan(&self, target: usize, opts: ScanOpts) -> (found: Vec<PointerPath>)
        ensures
            reverse::scan_yields(
                self.graph(opts.max_offset),
                target,
                opts,
                path::routes(found@),
            ),
    {
        self.ptr_map.reverse_scan(self.mem.image(), target, opts)
    }

    /// JOINT reverse scan across two (root, target) pairs: find the SHORTEST
    /// offset-path that, applied from each root, reaches that pair's target,
    /// using the SAME offset at every step. Because each backward step must
    /// advance BOTH decks by the identical offset, coincidental single-deck
    /// paths are pruned immediately. Root-relative: `[off_in_root, .., final]`.
    pub fn joint2_path(
        &self,
        root_a: usize,
        target_a: usize,
        root_b: usize,
        target_b: usize,
        window: usize,
        max_offset: usize,
        max_depth: usize,
    ) -> (path: Option<Vec<usize>>)
        ensures
            joint::as_offsets(path) == joint::path_within(
                self.pointers(),
                (Roots { root_a, root_b, window, max_offset }),
                target_a,
                target_b,
                max_depth as nat,
            ),
    {
        self.ptr_map.joint2_path(
            Roots { root_a, root_b, window, max_offset },
            target_a,
            target_b,
            max_depth,
        )
    }
}

} // verus!
