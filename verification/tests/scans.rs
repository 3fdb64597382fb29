use offset_finder::bytes::{is_within, kept_words, le_word, push_near_words, push_pattern_hits, utf16_bytes};
use offset_finder::chunks::CHUNK;
use offset_finder::procmem::ProcMem;
use offset_finder::region::Region;
use offset_finder::scan::Scanner;
use offset_finder::task::{Kernel, Task, VmRegion};
use std::cell::RefCell;

/// A process image held in a few buffers.
struct Fake {
    pieces: Vec<(u64, Vec<u8>)>,
    regions: Vec<VmRegion>,
    task: Result<u32, i32>,
    info: Result<u64, i32>,
}

impl Kernel for Fake {
    fn task_for_pid(&self, _pid: i32) -> Result<u32, i32> {
        self.task
    }

    fn all_image_info_addr(&self, _port: u32) -> Result<u64, i32> {
        self.info
    }

    fn vm_read(&self, _port: u32, address: u64, size: u64) -> Result<Vec<u8>, i32> {
        for (start, bytes) in &self.pieces {
            let end = start + bytes.len() as u64;
            if *start <= address && address < end {
                let from = (address - start) as usize;
                let to = bytes.len().min(from + size as usize);
                return Ok(bytes[from..to].to_vec());
            }
        }
        Err(1)
    }

    fn vm_region(&self, _port: u32, address: u64) -> Result<VmRegion, i32> {
        for r in &self.regions {
            if address < r.address + r.size {
                return Ok(*r);
            }
        }
        Err(1)
    }
}

fn put(bytes: &mut [u8], at: usize, value: &[u8]) {
    bytes[at..at + value.len()].copy_from_slice(value);
}

/// An image at 0x1000, a writable region at 0x10000, one that is read-only at 0x20000, and a
/// writable one at 0x30000 that cannot be read.
fn memory() -> ProcMem<Fake> {
    let mut heap = vec![0u8; 0x100];
    put(&mut heap, 0x20, &(-5i64).to_le_bytes());
    put(&mut heap, 0x34, &0xDEAD_BEEFu32.to_le_bytes());
    put(&mut heap, 0x41, b"Track");
    put(&mut heap, 0x80, &[b'T', 0, b'r', 0, b'a', 0, b'c', 0, b'k', 0]);
    let mut image = vec![0u8; 0x40];
    put(&mut image, 0x08, &(-3i64).to_le_bytes());
    put(&mut image, 0x20, b"Track");
    let kernel = Fake {
        pieces: vec![(0x1000, image), (0x10000, heap), (0x20000, b"Track".to_vec())],
        regions: vec![
            VmRegion { address: 0x1000, size: 0x1000, protection: 1 },
            VmRegion { address: 0x10000, size: 0x100, protection: 3 },
            VmRegion { address: 0x20000, size: 0x1000, protection: 1 },
            VmRegion { address: 0x30000, size: 0x1000, protection: 3 },
        ],
        task: Ok(1),
        info: Ok(0),
    };
    ProcMem { task: Task { kernel, port: 1 }, pid: 1, base: 0x1000, image_size: 0x1000 }
}

#[test]
fn scan_regions_are_writable_or_in_the_image() {
    let mem = memory();
    let scanner = Scanner::new(&mem);
    assert_eq!(scanner.total_scan_bytes(), 0x1000 + 0x100 + 0x1000);
    assert!(scanner.addr_readable(0x20FFF));
    assert!(!scanner.addr_readable(0x21000));
    assert!(!scanner.addr_readable(0x10100));
    assert!(!scanner.addr_readable(0));
}

#[test]
fn overlapping_regions_are_readable_throughout() {
    let mem = memory();
    let region = |addr: usize, size: usize| Region { addr, size, writable: true };
    let scanner = Scanner::with_regions(
        &mem,
        vec![region(0x9000, 0x10), region(0x2000, 0x1000), region(0x1000, 0x7000)],
    );
    assert!(scanner.addr_readable(0x2800));
    assert!(scanner.addr_readable(0x5000));
    assert!(scanner.addr_readable(0x7FFF));
    assert!(!scanner.addr_readable(0x8000));
    assert!(scanner.addr_readable(0x9000));
}

#[test]
fn numbers_near_a_target() {
    let mem = memory();
    let scanner = Scanner::new(&mem);
    assert_eq!(scanner.find_i64_near(-4, 1), vec![0x1008, 0x10020]);
    assert_eq!(scanner.find_i64_near(-6, 2), vec![0x10020]);
    assert_eq!(scanner.find_i64_near(-4, 0), Vec::<usize>::new());
    assert_eq!(scanner.find_i64_near(-5, -1), Vec::<usize>::new());
}

#[test]
fn distances_do_not_overflow() {
    assert!(is_within(i64::MAX as u64, 0, i64::MAX));
    assert!(!is_within(i64::MAX as u64, -1, i64::MAX));
    assert!(!is_within(i64::MIN as u64, 0, i64::MAX));
    assert!(is_within(i64::MIN as u64, i64::MIN, 0));
    assert!(!is_within(0, 0, i64::MIN));
}

#[test]
fn near_words_of_a_buffer() {
    let mut buf = vec![0u8; 20];
    put(&mut buf, 8, &7i64.to_le_bytes());
    let mut hits = vec![1];
    push_near_words(0x100, &buf, 7, 0, &mut hits);
    assert_eq!(hits, vec![1, 0x108]);
    // four bytes are left over
    push_near_words(0x100, &buf, 0, 0, &mut hits);
    assert_eq!(hits, vec![1, 0x108, 0x100]);
}

#[test]
fn words_of_a_buffer() {
    let buf = [1u8, 2, 3, 4, 5, 6, 7, 8, 9];
    assert_eq!(le_word(&buf, 1, 8), 0x0908_0706_0504_0302);
    assert_eq!(le_word(&buf, 5, 4), 0x0908_0706);
    assert_eq!(le_word(&buf, 9, 0), 0);
}

#[test]
fn four_byte_words_that_pass_a_test() {
    let mem = memory();
    let scanner = Scanner::new(&mem);
    assert_eq!(scanner.find_u32_where(|w: u32| w == 0xDEAD_BEEF), vec![0x10034]);
    assert_eq!(
        scanner.find_u32_where(|w: u32| w == 0xFFFF_FFFF),
        vec![0x100C, 0x10024]
    );
    let buf = vec![1, 0, 0, 0, 2, 0, 0, 0, 1, 0];
    assert_eq!(kept_words(0x10, &buf, &|w: u32| w == 1), vec![0x10]);
}

#[test]
fn floats_within_a_tolerance() {
    let mut mem = memory();
    put(&mut mem.task.kernel.pieces[1].1, 0x10, &128.5f32.to_le_bytes());
    put(&mut mem.task.kernel.pieces[1].1, 0x14, &f32::NAN.to_le_bytes());
    let scanner = Scanner::new(&mem);
    let hits = scanner.find_u32_where(|w: u32| {
        let v = f32::from_bits(w);
        v.is_finite() && (v - 128.0).abs() <= 0.5
    });
    assert_eq!(hits, vec![0x10010]);
}

#[test]
fn text_is_found_in_both_forms() {
    let mem = memory();
    let scanner = Scanner::new(&mem);
    assert_eq!(scanner.find_string("Track"), vec![0x1020, 0x10041, 0x10080]);
    assert_eq!(scanner.find_string("track"), Vec::<usize>::new());
    assert_eq!(scanner.find_string(""), Vec::<usize>::new());
}

#[test]
fn matches_do_not_overlap() {
    let mut hits = Vec::new();
    push_pattern_hits(0x100, &b"aaaaabaa".to_vec(), &b"aa".to_vec(), &mut hits);
    assert_eq!(hits, vec![0x100, 0x102, 0x106]);
    let mut hits = Vec::new();
    push_pattern_hits(0x100, &b"aa".to_vec(), &b"aaa".to_vec(), &mut hits);
    push_pattern_hits(0x100, &b"aa".to_vec(), &Vec::new(), &mut hits);
    assert_eq!(hits, Vec::<usize>::new());
}

#[test]
fn utf16_forms() {
    assert_eq!(utf16_bytes(&vec!['A', 'é', '€']), vec![0x41, 0, 0xE9, 0, 0xAC, 0x20]);
    assert_eq!(utf16_bytes(&vec!['\u{1D11E}']), vec![0x34, 0xD8, 0x1E, 0xDD]);
    assert_eq!(utf16_bytes(&vec!['\u{FFFF}', '\u{10000}']), vec![0xFF, 0xFF, 0x00, 0xD8, 0x00, 0xDC]);
    assert_eq!(utf16_bytes(&Vec::new()), Vec::<u8>::new());
}

#[test]
fn text_outside_ascii_is_found() {
    let mut mem = memory();
    let text = "é\u{1D11E}";
    put(&mut mem.task.kernel.pieces[1].1, 0x10, text.as_bytes());
    put(&mut mem.task.kernel.pieces[1].1, 0xC0, &[0xE9, 0, 0x34, 0xD8, 0x1E, 0xDD]);
    let scanner = Scanner::new(&mem);
    assert_eq!(scanner.find_string(text), vec![0x10010, 0x100C0]);
}

#[test]
fn snapshots_hold_what_could_be_read() {
    let mem = memory();
    let scanner = Scanner::new(&mem);
    let snap = scanner.snapshot();
    assert_eq!(snap.len(), 2);
    assert_eq!((snap[0].0, snap[0].1.len()), (0x1000, 0x40));
    assert_eq!((snap[1].0, snap[1].1.len()), (0x10000, 0x100));
    assert_eq!(snap[1].1, mem.task.kernel.pieces[1].1);
    let capped = scanner.snapshot_capped(0x100);
    assert_eq!(capped.len(), 1);
    assert_eq!(capped[0], snap[1]);
    assert_eq!(scanner.snapshot_capped(0xFF).len(), 0);
}

fn diff(a: &[(usize, Vec<u8>)], b: &[(usize, Vec<u8>)], want_a: u8, want_b: u8) -> Vec<usize> {
    Scanner::<Fake>::diff_byte(a, b, want_a, want_b)
}

#[test]
fn diff_reports_the_wanted_change() {
    let a = vec![(0x100, vec![0, 1, 0, 0]), (0x200, vec![0, 0])];
    let b = vec![(0x100, vec![1, 1, 0, 1]), (0x200, vec![1, 0])];
    assert_eq!(diff(&a, &b, 0, 1), vec![0x100, 0x103, 0x200]);
    assert_eq!(diff(&a, &b, 1, 1), vec![0x101]);
    assert_eq!(diff(&a, &b, 1, 0), Vec::<usize>::new());
}

#[test]
fn diff_matches_regions_by_address() {
    let a = vec![(0x100, vec![0, 0]), (0x200, vec![0]), (0x300, vec![0, 0, 0])];
    let b = vec![(0x300, vec![1, 0]), (0x400, vec![1]), (0x100, vec![0, 1])];
    assert_eq!(diff(&a, &b, 0, 1), vec![0x101, 0x300]);
    let fewer = vec![(0x300, vec![1, 0]), (0x100, vec![0, 1])];
    assert_eq!(diff(&a, &fewer, 0, 1), vec![0x101, 0x300]);
    let swapped = vec![(0x100, vec![0, 1]), (0x300, vec![1, 0])];
    assert_eq!(diff(&a, &swapped, 0, 1), vec![0x101, 0x300]);
}

#[test]
fn diff_takes_the_later_of_two_regions_at_one_address() {
    let a = vec![(0x100, vec![0, 0])];
    let b = vec![(0x100, vec![1, 0]), (0x100, vec![0, 1])];
    assert_eq!(diff(&a, &b, 0, 1), vec![0x101]);
}

/// A kernel whose memory is all there, and which keeps record of what it is asked for.
struct Record {
    size: u64,
    asked: RefCell<Vec<(u64, u64)>>,
}

impl Kernel for Record {
    fn task_for_pid(&self, _pid: i32) -> Result<u32, i32> {
        Ok(0)
    }

    fn all_image_info_addr(&self, _port: u32) -> Result<u64, i32> {
        Ok(0)
    }

    fn vm_read(&self, _port: u32, address: u64, size: u64) -> Result<Vec<u8>, i32> {
        self.asked.borrow_mut().push((address, size));
        if address >= self.size {
            return Err(1);
        }
        let count = size.min(self.size - address);
        let mut bytes = vec![0u8; count as usize];
        bytes[0] = (address >> 20) as u8;
        Ok(bytes)
    }

    fn vm_region(&self, _port: u32, _address: u64) -> Result<VmRegion, i32> {
        Err(1)
    }
}

/// What is read of a region, and the questions that it took.
fn read_recorded(size: u64, addr: usize, region: usize) -> (Option<(usize, Vec<u8>)>, Vec<(u64, u64)>) {
    let task = Task { kernel: Record { size, asked: RefCell::new(Vec::new()) }, port: 0 };
    let got = task.read_region(&Region { addr, size: region, writable: true });
    let asked = task.kernel.asked.borrow().clone();
    (got, asked)
}

#[test]
fn regions_are_read_in_chunks() {
    let chunk = CHUNK as u64;
    assert_eq!(CHUNK, 8 * 1024 * 1024);
    let (got, asked) = read_recorded(1 << 30, 0x10_0000, CHUNK + 16);
    assert_eq!(asked, vec![(0x10_0000, chunk), (0x10_0000 + chunk, 16)]);
    match got {
        Some((addr, b)) => {
            assert_eq!(addr, 0x10_0000);
            assert_eq!(b.len(), CHUNK + 16);
            assert_eq!((b[0], b[1], b[CHUNK], b[CHUNK + 1]), (1, 0, 9, 0));
        }
        None => panic!("nothing read"),
    }
}

#[test]
fn reading_a_region_stops_at_a_hole() {
    let chunk = CHUNK as u64;
    let (got, asked) = read_recorded(chunk + 4, 0, 3 * CHUNK);
    assert_eq!(asked, vec![(0, chunk), (chunk, chunk)]);
    assert_eq!(got.map(|(addr, b)| (addr, b.len())), Some((0, CHUNK + 4)));
    let (got, asked) = read_recorded(chunk, 0, 2 * CHUNK);
    assert_eq!(asked, vec![(0, chunk), (chunk, chunk)]);
    assert_eq!(got.map(|(addr, b)| (addr, b.len())), Some((0, CHUNK)));
}

#[test]
fn a_region_of_which_nothing_can_be_read() {
    assert_eq!(read_recorded(0, 0, 16), (None, vec![(0, 16)]));
    assert_eq!(read_recorded(16, 0, 0), (None, Vec::new()));
}

#[test]
fn diff_the_other_way_round() {
    let a = vec![(0x100, vec![0, 1, 0]), (0x200, vec![0, 0]), (0x300, vec![0])];
    let b = vec![(0x300, vec![1, 1]), (0x100, vec![1, 1, 1]), (0x400, vec![1])];
    let there = diff(&a, &b, 0, 1);
    let mut back = diff(&b, &a, 1, 0);
    assert_eq!(there, vec![0x100, 0x102, 0x300]);
    assert_eq!(back, vec![0x300, 0x100, 0x102]);
    back.sort();
    assert_eq!(back, there);
}

#[test]
fn diff_of_a_snapshot_with_itself() {
    let a = vec![(0x100, vec![0, 1, 0]), (0x200, vec![1, 0])];
    assert_eq!(diff(&a, &a, 0, 1), Vec::<usize>::new());
    assert_eq!(diff(&a, &a, 1, 0), Vec::<usize>::new());
    assert_eq!(diff(&a, &a, 1, 1), vec![0x101, 0x200]);
}

#[test]
fn a_second_snapshot_is_the_first() {
    let mem = memory();
    let scanner = Scanner::new(&mem);
    let again = Scanner::new(&mem);
    let whole = scanner.snapshot();
    assert_eq!(whole, again.snapshot());
    for max in [0, 0xFF, 0x100, 0xFFF, 0x1000] {
        let capped = scanner.snapshot_capped(max);
        let mut rest = whole.iter();
        assert!(capped.iter().all(|e| rest.any(|w| w == e)));
    }
    assert_eq!(scanner.snapshot_capped(0x1000), whole);
}

#[test]
fn a_readable_region_is_read_whole() {
    let mem = memory();
    let region = Region { addr: 0x10000, size: 0x100, writable: true };
    assert_eq!(
        mem.task.read_region(&region),
        Some((0x10000, mem.task.kernel.pieces[1].1.clone()))
    );
}
