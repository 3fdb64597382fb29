use offset_finder::joint::Roots;
use offset_finder::path::{PointerPath, ScanOpts};
use offset_finder::pointers::PointerMap;
use offset_finder::procmem::ProcMem;
use offset_finder::region::{Image, Region, RegionTable};
use offset_finder::scan::{push_pointers, Scanner};
use offset_finder::sort::stable_sort;
use offset_finder::task::{Kernel, Task, VmRegion};

/// A process image held in a few buffers.
struct Fake {
    pieces: Vec<(u64, Vec<u8>)>,
    regions: Vec<VmRegion>,
    task: Result<u32, i32>,
    info: Result<u64, i32>,
}

impl Kernel for Fake {
    fn task_for_pid(&self, _pid: i32) -> Result<u32, i32> {
        self.task
    }

    fn all_image_info_addr(&self, _port: u32) -> Result<u64, i32> {
        self.info
    }

    fn vm_read(&self, _port: u32, address: u64, size: u64) -> Result<Vec<u8>, i32> {
        for (start, bytes) in &self.pieces {
            let end = start + bytes.len() as u64;
            if *start <= address && address < end {
                let from = (address - start) as usize;
                let to = bytes.len().min(from + size as usize);
                return Ok(bytes[from..to].to_vec());
            }
        }
        Err(1)
    }

    fn vm_region(&self, _port: u32, address: u64) -> Result<VmRegion, i32> {
        for r in &self.regions {
            if address < r.address + r.size {
                return Ok(*r);
            }
        }
        Err(1)
    }
}

fn put(bytes: &mut [u8], at: usize, value: u64) {
    bytes[at..at + 8].copy_from_slice(&value.to_le_bytes());
}

/// An image at 0x1000 and a heap at 0x10000. Two locations of the image point into the heap: 0x1020
/// to an object that points on, and 0x1030 to the value itself.
fn memory() -> ProcMem<Fake> {
    let mut image = vec![0u8; 0x1000];
    put(&mut image, 0x20, 0x10100);
    put(&mut image, 0x30, 0x10210);
    put(&mut image, 0x44, 0x10210); // not aligned
    put(&mut image, 0x50, 0x12000); // not readable
    let mut heap = vec![0u8; 0x2000];
    put(&mut heap, 0x108, 0x10200);
    put(&mut heap, 0x300, 0x10300);
    // two roots, 0x10400 and 0x10800, with a sub-object each
    put(&mut heap, 0x408, 0x10500);
    put(&mut heap, 0x510, 0x10600);
    put(&mut heap, 0x808, 0x10900);
    put(&mut heap, 0x910, 0x10A00);
    let kernel = Fake {
        pieces: vec![(0x1000, image), (0x10000, heap)],
        regions: vec![
            VmRegion { address: 0x1000, size: 0x1000, protection: 3 },
            VmRegion { address: 0x10000, size: 0x2000, protection: 3 },
        ],
        task: Ok(1),
        info: Ok(0),
    };
    ProcMem { task: Task { kernel, port: 1 }, pid: 1, base: 0x1000, image_size: 0x1000 }
}

fn scanner(mem: &ProcMem<Fake>) -> Scanner<'_, Fake> {
    let mut s = Scanner::new(mem);
    s.build_pointer_map();
    s
}

fn path(rva: usize, rest: &[usize]) -> PointerPath {
    PointerPath { rva, rest: rest.to_vec() }
}

#[test]
fn pointers_of_the_image() {
    let mem = memory();
    let s = scanner(&mem);
    assert_eq!(s.static_pointers(), vec![(0x10100, 0x1020), (0x10210, 0x1030)]);
    assert_eq!(Scanner::new(&mem).static_pointers(), Vec::new());
}

#[test]
fn pointers_of_a_buffer() {
    let table = RegionTable::new(vec![Region { addr: 0x100, size: 0x10, writable: false }]);
    let mut buf = vec![0u8; 36];
    put(&mut buf, 0, 0x100);
    put(&mut buf, 8, 0x110);
    put(&mut buf, 16, 0x10F);
    put(&mut buf, 28, 0x100);
    let mut out = Vec::new();
    push_pointers(&table, 0x40, &buf, &mut out);
    assert_eq!(out, vec![(0x100, 0x40), (0x10F, 0x50)]);
}

#[test]
fn chains_of_every_depth_shortest_first() {
    let mem = memory();
    let s = scanner(&mem);
    assert_eq!(
        s.reverse_scan(0x10210, ScanOpts::default()),
        vec![path(0x30, &[0]), path(0x20, &[0x110]), path(0x20, &[8, 0x10])]
    );
}

#[test]
fn offsets_are_bounded() {
    let mem = memory();
    let s = scanner(&mem);
    let opts = ScanOpts { max_offset: 0x10, ..ScanOpts::default() };
    assert_eq!(s.reverse_scan(0x10210, opts), vec![path(0x30, &[0]), path(0x20, &[8, 0x10])]);
    let opts = ScanOpts { max_offset: 0xF, ..ScanOpts::default() };
    assert_eq!(s.reverse_scan(0x10210, opts), vec![path(0x30, &[0])]);
}

#[test]
fn depth_is_bounded() {
    let mem = memory();
    let s = scanner(&mem);
    let opts = ScanOpts { max_depth: 1, ..ScanOpts::default() };
    assert_eq!(s.reverse_scan(0x10210, opts), vec![path(0x30, &[0]), path(0x20, &[0x110])]);
    let opts = ScanOpts { max_depth: 0, ..ScanOpts::default() };
    assert_eq!(s.reverse_scan(0x10210, opts), Vec::new());
}

#[test]
fn results_are_capped() {
    let mem = memory();
    let s = scanner(&mem);
    let opts = ScanOpts { max_results: 1, ..ScanOpts::default() };
    assert_eq!(s.reverse_scan(0x10210, opts), vec![path(0x20, &[0x110])]);
    let opts = ScanOpts { max_results: 2, ..ScanOpts::default() };
    assert_eq!(s.reverse_scan(0x10210, opts), vec![path(0x30, &[0]), path(0x20, &[0x110])]);
    let opts = ScanOpts { max_results: 0, ..ScanOpts::default() };
    assert_eq!(s.reverse_scan(0x10210, opts), Vec::new());
}

#[test]
fn nodes_are_capped() {
    let mem = memory();
    let s = scanner(&mem);
    let opts = ScanOpts { node_budget: 1, ..ScanOpts::default() };
    assert_eq!(s.reverse_scan(0x10210, opts), Vec::new());
    let opts = ScanOpts { node_budget: 2, ..ScanOpts::default() };
    assert_eq!(s.reverse_scan(0x10210, opts), vec![path(0x20, &[0x110])]);
}

#[test]
fn cycles_end() {
    let mem = memory();
    let s = scanner(&mem);
    let opts = ScanOpts { max_offset: 0, ..ScanOpts::default() };
    assert_eq!(s.reverse_scan(0x10300, opts), Vec::new());
}

#[test]
fn found_paths_resolve_to_the_target() {
    let mem = memory();
    let s = scanner(&mem);
    let found = s.reverse_scan(0x10210, ScanOpts::default());
    assert_eq!(found.len(), 3);
    for p in &found {
        assert_eq!(p.resolve_addr(&mem), Some(0x10210));
    }
}

#[test]
fn equal_paths_are_reported_once() {
    let map = PointerMap::new(vec![(0x100, 0x18), (0x100, 0x18)]);
    let image = Image { base: 0x10, size: 0x10 };
    assert_eq!(map.reverse_scan(image, 0x104, ScanOpts::default()), vec![path(8, &[4])]);
}

#[test]
fn a_shared_path() {
    let mem = memory();
    let s = scanner(&mem);
    assert_eq!(
        s.joint2_path(0x10400, 0x10604, 0x10800, 0x10A04, 0x40, 0x20, 4),
        Some(vec![8, 0x10, 4])
    );
    // the same, with a window that just holds the first location, and one that does not
    assert_eq!(
        s.joint2_path(0x10400, 0x10604, 0x10800, 0x10A04, 9, 0x20, 4),
        Some(vec![8, 0x10, 4])
    );
    assert_eq!(s.joint2_path(0x10400, 0x10604, 0x10800, 0x10A04, 8, 0x20, 4), None);
}

#[test]
fn no_path_is_shared() {
    let mem = memory();
    let s = scanner(&mem);
    assert_eq!(s.joint2_path(0x10400, 0x10604, 0x10800, 0x10A05, 0x40, 0x20, 4), None);
    assert_eq!(s.joint2_path(0x10400, 0x10604, 0x10801, 0x10A04, 0x40, 0x20, 4), None);
    assert_eq!(s.joint2_path(0x10400, 0x10604, 0x10800, 0x10A04, 0x40, 0x0F, 4), None);
    assert_eq!(s.joint2_path(0x10400, 0x10604, 0x10800, 0x10A04, 0x40, 0x20, 1), None);
    assert_eq!(s.joint2_path(0x10400, 0x10604, 0x10800, 2, 0x40, 0x20, 4), None);
}

#[test]
fn the_shortest_shared_path_is_taken() {
    let map = PointerMap::new(vec![
        (0x500, 0x408),
        (0x600, 0x510),
        (0x600, 0x410),
        (0x900, 0x808),
        (0xA00, 0x910),
        (0xA00, 0x810),
    ]);
    let roots = Roots { root_a: 0x400, root_b: 0x800, window: 0x40, max_offset: 0x20 };
    assert_eq!(map.joint2_path(roots, 0x604, 0xA04, 4), Some(vec![0x10, 4]));
}

#[test]
fn pointers_by_value() {
    let map = PointerMap::new(vec![(9, 1), (5, 2), (7, 3), (5, 4), (1, 5)]);
    assert_eq!(map.entries().clone(), vec![(1, 5), (5, 2), (5, 4), (7, 3), (9, 1)]);
    assert_eq!(map.ptrs_in_range(5, 7).to_vec(), vec![(5, 2), (5, 4), (7, 3)]);
    assert_eq!(map.ptrs_in_range(2, 4).to_vec(), vec![]);
    assert_eq!(map.ptrs_in_range(0, u64::MAX).len(), 5);
    assert_eq!(map.locs_with_value(5).to_vec(), vec![(5, 2), (5, 4)]);
    assert_eq!(map.locs_with_value(6).to_vec(), vec![]);
    assert_eq!(PointerMap::empty().entries().len(), 0);
}

#[test]
fn sorting_keeps_the_order_of_equals() {
    let sorted = stable_sort(vec![(3u64, 1usize), (1, 2), (3, 3), (2, 4), (1, 5), (3, 6)]);
    assert_eq!(sorted, vec![(1, 2), (1, 5), (2, 4), (3, 1), (3, 3), (3, 6)]);
}

#[test]
fn paths_sort_by_depth_then_sum_then_start() {
    let sorted = stable_sort(vec![
        path(1, &[1, 1]),
        path(9, &[5]),
        path(2, &[5]),
        path(7, &[4]),
        path(3, &[usize::MAX, usize::MAX]),
        path(0, &[usize::MAX, 1]),
    ]);
    assert_eq!(
        sorted,
        vec![
            path(7, &[4]),
            path(2, &[5]),
            path(9, &[5]),
            path(1, &[1, 1]),
            path(0, &[usize::MAX, 1]),
            path(3, &[usize::MAX, usize::MAX]),
        ]
    );
}

#[test]
fn one_node_count_runs_through_all_depths() {
    let map = PointerMap::new(vec![
        (0x4F10, 0x1110),
        (0x4F10, 0x1120),
        (0x4F10, 0x1130),
        (0x8F00, 0x5000),
        (0x8F10, 0x1010),
        (0x8F10, 0x1020),
        (0x8F10, 0x1030),
    ]);
    let image = Image { base: 0x1000, size: 0x1000 };
    let opts = |node_budget: usize| ScanOpts {
        max_offset: 0x100,
        max_depth: 2,
        max_results: 256,
        node_budget,
    };
    let shallow = vec![path(0x10, &[0xF0]), path(0x20, &[0xF0]), path(0x30, &[0xF0])];
    assert_eq!(map.reverse_scan(image, 0x9000, opts(5)), shallow);
    // the first depth takes four visits, the second opens with one that leads on
    assert_eq!(map.reverse_scan(image, 0x9000, opts(6)), shallow);
    let mut more = shallow.clone();
    more.push(path(0x110, &[0xF0, 0x100]));
    assert_eq!(map.reverse_scan(image, 0x9000, opts(7)), more);
    assert_eq!(map.reverse_scan(image, 0x9000, opts(100)).len(), 6);
    for budget in 0..20 {
        assert!(map.reverse_scan(image, 0x9000, opts(budget)).len() <= budget);
    }
}

#[test]
fn a_deeper_scan_extends_the_shallower() {
    let mem = memory();
    let s = scanner(&mem);
    for depth in 0..4 {
        let opts = ScanOpts { max_depth: depth, ..ScanOpts::default() };
        let deeper = ScanOpts { max_depth: depth + 1, ..ScanOpts::default() };
        let found = s.reverse_scan(0x10210, opts);
        let more = s.reverse_scan(0x10210, deeper);
        assert_eq!(more[..found.len()].to_vec(), found);
        for p in &more[found.len()..] {
            assert_eq!(p.depth(), depth + 1);
        }
    }
}

#[test]
fn a_larger_cap_keeps_what_was_found() {
    let mem = memory();
    let s = scanner(&mem);
    for cap in 0..4 {
        let found = s.reverse_scan(0x10210, ScanOpts { max_results: cap, ..ScanOpts::default() });
        let more = s.reverse_scan(0x10210, ScanOpts { max_results: cap + 1, ..ScanOpts::default() });
        assert!(found.iter().all(|p| more.contains(p)));
        for p in more.iter().filter(|p| !found.contains(p)) {
            assert!(found.iter().all(|q| q.depth() <= p.depth()));
        }
    }
}

#[test]
fn one_deck_may_repeat_while_the_other_moves_on() {
    let map = PointerMap::new(vec![
        (0x3000, 0x1000),
        (0x3000, 0x3000),
        (0x4000, 0x2000),
        (0x4800, 0x4000),
        (0x5000, 0x4800),
    ]);
    let roots = Roots { root_a: 0x1000, root_b: 0x2000, window: 8, max_offset: 0x10 };
    assert_eq!(map.joint2_path(roots, 0x3008, 0x5008, 3), Some(vec![0, 0, 0, 8]));
    assert_eq!(map.joint2_path(roots, 0x3008, 0x5008, 2), None);
    // the other way round
    let roots = Roots { root_a: 0x2000, root_b: 0x1000, window: 8, max_offset: 0x10 };
    assert_eq!(map.joint2_path(roots, 0x5008, 0x3008, 3), Some(vec![0, 0, 0, 8]));
}

#[test]
fn joint_cycles_end() {
    let map = PointerMap::new(vec![(0x3000, 0x3000), (0x4000, 0x4000)]);
    let roots = Roots { root_a: 0x1000, root_b: 0x2000, window: 8, max_offset: 0x10 };
    assert_eq!(map.joint2_path(roots, 0x3008, 0x4008, 20), None);
}

#[test]
fn the_image_with_itself() {
    let mem = memory();
    let s = scanner(&mem);
    for max_offset in [0x0F, 0x10, 0x800] {
        for target in [0x10210usize, 0x10204, 0x10208, 0x10310] {
            let opts = ScanOpts { max_offset, max_depth: 4, ..ScanOpts::default() };
            let found = s.reverse_scan(target, opts);
            match s.joint2_path(0x1000, target, 0x1000, target, 0x1000, max_offset, 4) {
                Some(p) => {
                    assert_eq!(p.len(), found[0].depth() + 1);
                    assert!(found.contains(&path(p[0], &p[1..])));
                }
                None => assert_eq!(found, Vec::new()),
            }
        }
    }
}

#[test]
fn pointers_of_one_value_come_by_location() {
    let mut mem = memory();
    for at in [0x38, 0x10, 0x70] {
        put(&mut mem.task.kernel.pieces[0].1, at, 0x10100);
    }
    let s = scanner(&mem);
    assert_eq!(
        s.static_pointers(),
        vec![
            (0x10100, 0x1010),
            (0x10100, 0x1020),
            (0x10100, 0x1038),
            (0x10100, 0x1070),
            (0x10210, 0x1030),
        ]
    );
    assert_eq!(s.static_pointers(), scanner(&mem).static_pointers());
}
