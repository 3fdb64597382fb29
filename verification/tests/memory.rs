use offset_finder::macho::{image_extent, LoadCommand, Segment, LC_SEGMENT_64};
use offset_finder::path::PointerPath;
use offset_finder::process::Process;
use offset_finder::procmem::ProcMem;
use offset_finder::task::{Kernel, Task, VmRegion};

/// A process image held in a few buffers.
struct Fake {
    pieces: Vec<(u64, Vec<u8>)>,
    regions: Vec<VmRegion>,
    task: Result<u32, i32>,
    info: Result<u64, i32>,
}

impl Kernel for Fake {
    fn task_for_pid(&self, _pid: i32) -> Result<u32, i32> {
        self.task
    }

    fn all_image_info_addr(&self, _port: u32) -> Result<u64, i32> {
        self.info
    }

    fn vm_read(&self, _port: u32, address: u64, size: u64) -> Result<Vec<u8>, i32> {
        for (start, bytes) in &self.pieces {
            let end = start + bytes.len() as u64;
            if *start <= address && address < end {
                let from = (address - start) as usize;
                let to = bytes.len().min(from + size as usize);
                return Ok(bytes[from..to].to_vec());
            }
        }
        Err(1)
    }

    fn vm_region(&self, _port: u32, address: u64) -> Result<VmRegion, i32> {
        for r in &self.regions {
            if address < r.address + r.size {
                return Ok(*r);
            }
        }
        Err(1)
    }
}

fn fake(pieces: Vec<(u64, Vec<u8>)>) -> Fake {
    Fake { pieces, regions: Vec::new(), task: Ok(9), info: Ok(0x100) }
}

fn memory(pieces: Vec<(u64, Vec<u8>)>) -> ProcMem<Fake> {
    ProcMem { task: Task { kernel: fake(pieces), port: 9 }, pid: 1, base: 0x1000, image_size: 0x800 }
}

fn put(bytes: &mut [u8], at: usize, value: u64, size: usize) {
    bytes[at..at + size].copy_from_slice(&value.to_le_bytes()[..size]);
}

/// A Mach-O image: `__PAGEZERO`, two segments, and a command of another kind in between.
fn image() -> Vec<u8> {
    let mut b = vec![0u8; 0x400];
    put(&mut b, 16, 4, 4);
    let segments: [(&[u8], u64, u64); 3] = [
        (b"__PAGEZERO", 0, 0x1_0000_0000),
        (b"__TEXT", 0x1_0000_0000, 0x4000),
        (b"__DATA", 0x1_0000_4000, 0x2000),
    ];
    let mut at = 32;
    for (i, (name, vmaddr, vmsize)) in segments.iter().enumerate() {
        if i == 2 {
            put(&mut b, at, 0x1B, 4);
            put(&mut b, at + 4, 24, 4);
            at += 24;
        }
        put(&mut b, at, LC_SEGMENT_64 as u64, 4);
        put(&mut b, at + 4, 72, 4);
        b[at + 8..at + 8 + name.len()].copy_from_slice(name);
        put(&mut b, at + 24, *vmaddr, 8);
        put(&mut b, at + 32, *vmsize, 8);
        at += 72;
    }
    b
}

/// The loader's data at 0x100, the list of images at 0x200, the image at 0x1000.
fn process_pieces() -> Vec<(u64, Vec<u8>)> {
    let mut infos = vec![0u8; 16];
    put(&mut infos, 8, 0x200, 8);
    let mut list = vec![0u8; 8];
    put(&mut list, 0, 0x1000, 8);
    vec![(0x100, infos), (0x200, list), (0x1000, image())]
}

fn running() -> Vec<Process> {
    vec![Process { pid: 42, name: Some(String::from("/Apps/rekordbox")) }]
}

fn failure(r: Result<ProcMem<Fake>, String>) -> String {
    match r {
        Ok(_) => panic!("attached"),
        Err(e) => e,
    }
}

#[test]
fn attach_finds_base_and_extent() {
    let mem = match ProcMem::attach(fake(process_pieces()), &running(), "RekordBox") {
        Ok(mem) => mem,
        Err(e) => panic!("{}", e),
    };
    assert_eq!(mem.pid, 42);
    assert_eq!(mem.task.port, 9);
    assert_eq!(mem.base, 0x1000);
    assert_eq!(mem.image_size, 0x6000);
    assert!(mem.in_static_range(0x1000));
    assert!(mem.in_static_range(0x6FFF));
    assert!(!mem.in_static_range(0x7000));
    assert!(!mem.in_static_range(0xFFF));
}

#[test]
fn attach_without_such_a_process() {
    assert_eq!(
        failure(ProcMem::attach(fake(process_pieces()), &running(), "Traktor")),
        "Process 'Traktor' not found — is it running?"
    );
}

#[test]
fn attach_without_a_task() {
    let mut kernel = fake(process_pieces());
    kernel.task = Err(5);
    assert_eq!(
        failure(ProcMem::attach(kernel, &running(), "rekordbox")),
        "task_for_pid failed (mach error 5). Re-sign Rekordbox with get-task-allow: run ./resign_rekordbox.sh"
    );
}

#[test]
fn attach_without_loader_info() {
    let mut kernel = fake(process_pieces());
    kernel.info = Err(-308);
    assert_eq!(
        failure(ProcMem::attach(kernel, &running(), "rekordbox")),
        "task_info(TASK_DYLD_INFO) failed: -308"
    );
    let mut kernel = fake(process_pieces());
    kernel.info = Err(i32::MIN);
    assert_eq!(
        failure(ProcMem::attach(kernel, &running(), "rekordbox")),
        "task_info(TASK_DYLD_INFO) failed: -2147483648"
    );
}

#[test]
fn attach_without_image_infos() {
    let mut pieces = process_pieces();
    pieces[0].1.truncate(15);
    assert_eq!(
        failure(ProcMem::attach(fake(pieces), &running(), "rekordbox")),
        "Failed to read dyld_all_image_infos"
    );
}

#[test]
fn attach_without_image_list() {
    let mut pieces = process_pieces();
    pieces[1].1.truncate(7);
    assert_eq!(
        failure(ProcMem::attach(fake(pieces), &running(), "rekordbox")),
        "Failed to read dyld image info array"
    );
}

#[test]
fn attach_without_a_readable_image() {
    let mut pieces = process_pieces();
    pieces.truncate(2);
    match ProcMem::attach(fake(pieces), &running(), "rekordbox") {
        Ok(mem) => {
            assert_eq!(mem.base, 0x1000);
            assert_eq!(mem.image_size, 0);
            assert!(!mem.in_static_range(0x1000));
        }
        Err(e) => panic!("{}", e),
    }
}

#[test]
fn image_size_stops_at_an_empty_command() {
    let mut pieces = process_pieces();
    // the command between the segments has size zero
    put(&mut pieces[2].1, 32 + 144 + 4, 0, 4);
    let mem = memory(pieces);
    assert_eq!(mem.task.compute_image_size(0x1000), 0x4000);
}

#[test]
fn image_size_stops_where_commands_cannot_be_read() {
    let mut pieces = process_pieces();
    pieces[2].1.truncate(32 + 144);
    let mem = memory(pieces);
    assert_eq!(mem.task.compute_image_size(0x1000), 0x4000);
}

#[test]
fn extent_spans_the_counted_segments() {
    let seg = |pagezero: bool, vmaddr: u64, vmsize: u64| LoadCommand {
        cmdsize: 72,
        segment: Some(Segment { pagezero, vmaddr, vmsize }),
    };
    let other = LoadCommand { cmdsize: 24, segment: None };
    assert_eq!(image_extent(&Vec::new()), 0);
    assert_eq!(image_extent(&vec![other]), 0);
    assert_eq!(image_extent(&vec![seg(true, 0, 100)]), 0);
    assert_eq!(image_extent(&vec![seg(false, 10, 0)]), 0);
    assert_eq!(image_extent(&vec![seg(false, 10, 5)]), 5);
    assert_eq!(image_extent(&vec![seg(false, 100, 20), other, seg(false, 10, 5)]), 110);
    assert_eq!(image_extent(&vec![seg(true, 0, 10), seg(false, 10, 5), seg(false, 15, 7)]), 12);
}

#[test]
fn words_are_little_endian() {
    let mem = memory(vec![(0x2000, vec![1, 2, 3, 4, 5, 6, 7, 8])]);
    assert_eq!(mem.read_u64(0x2000), Some(0x0807_0605_0403_0201));
    assert_eq!(mem.task.read_u32(0x2004), Some(0x0807_0605));
}

#[test]
fn values_cut_short_are_filled_with_zeros() {
    let mem = memory(vec![(0x2000, vec![1, 2, 3])]);
    assert_eq!(mem.read(0x2001, 4), Some(vec![2, 3, 0, 0]));
    assert_eq!(mem.read_u64(0x2000), Some(0x03_0201));
    assert_eq!(mem.read(0x3000, 4), None);
    assert_eq!(mem.read_u64(0x3000), None);
}

#[test]
fn bytes_cut_short_stay_short() {
    let mem = memory(vec![(0x2000, vec![1, 2, 3])]);
    assert_eq!(mem.read_bytes(0x2000, 2), Some(vec![1, 2]));
    assert_eq!(mem.read_bytes(0x2001, 9), Some(vec![2, 3]));
    assert_eq!(mem.read_bytes(0x4000, 1), None);
    assert_eq!(mem.task.raw_read(0x2000, 3), Some(vec![1, 2, 3]));
    assert_eq!(mem.task.raw_read(0x2000, 4), None);
}

#[test]
fn cstrings_end_at_the_first_nul() {
    let mem = memory(vec![(0x2000, b"Title\0rest\0".to_vec())]);
    assert_eq!(mem.read_cstring(0x2000, 11), Some(String::from("Title")));
    assert_eq!(mem.read_cstring(0x2000, 3), Some(String::from("Tit")));
    assert_eq!(mem.read_cstring(0x2005, 6), Some(String::new()));
    assert_eq!(mem.read_cstring(0x9000, 6), None);
}

#[test]
fn cstrings_are_utf8() {
    let mem = memory(vec![(0x2000, vec![0xC3, 0xA9, 0xE2, 0x82, 0xAC, 0, 0xFF])]);
    assert_eq!(mem.read_cstring(0x2000, 7), Some(String::from("é€")));
    assert_eq!(mem.read_cstring(0x2000, 3), None);
    assert_eq!(mem.read_cstring(0x2006, 1), None);
}

#[test]
fn regions_are_the_readable_ones() {
    let mut mem = memory(Vec::new());
    mem.task.kernel.regions = vec![
        VmRegion { address: 0, size: 0x1000, protection: 0 },
        VmRegion { address: 0x1000, size: 0x1000, protection: 1 },
        VmRegion { address: 0x3000, size: 0x2000, protection: 3 },
        VmRegion { address: 0x8000, size: 0x1000, protection: 2 },
    ];
    let regions = mem.enumerate_regions();
    assert_eq!(regions.len(), 2);
    assert_eq!((regions[0].addr, regions[0].size, regions[0].writable), (0x1000, 0x1000, false));
    assert_eq!((regions[1].addr, regions[1].size, regions[1].writable), (0x3000, 0x2000, true));
    assert!(regions[1].contains(0x4FFF) && !regions[1].contains(0x5000));
    assert_eq!(regions[1].end(), 0x5000);
}

/// A kernel that knows of one region, at the top of memory.
struct Top {}

impl Kernel for Top {
    fn task_for_pid(&self, _pid: i32) -> Result<u32, i32> {
        Ok(0)
    }
    fn all_image_info_addr(&self, _port: u32) -> Result<u64, i32> {
        Ok(0)
    }
    fn vm_read(&self, _port: u32, _address: u64, _size: u64) -> Result<Vec<u8>, i32> {
        Err(1)
    }
    fn vm_region(&self, _port: u32, _address: u64) -> Result<VmRegion, i32> {
        Ok(VmRegion { address: u64::MAX - 0xFFF, size: 0x1000, protection: 1 })
    }
}

#[test]
fn enumeration_ends_at_the_top_of_memory() {
    let task = Task { kernel: Top {}, port: 0 };
    let regions = task.enumerate_regions();
    assert_eq!(regions.len(), 1);
    assert_eq!(regions[0].end(), usize::MAX);
}

#[test]
fn paths_resolve_hop_by_hop() {
    let mut data = vec![0u8; 0x100];
    put(&mut data, 0x10, 0x2000, 8);
    let mut heap = vec![0u8; 0x100];
    put(&mut heap, 0x08, 0x2040, 8);
    put(&mut heap, 0x60, 0x5000, 8);
    let mem = memory(vec![(0x1000, data), (0x2000, heap)]);
    let resolve = |rest: Vec<usize>| PointerPath { rva: 0x10, rest }.resolve_addr(&mem);
    assert_eq!(resolve(vec![]), Some(0x2000));
    assert_eq!(resolve(vec![0x30]), Some(0x2030));
    assert_eq!(resolve(vec![0x8, 0x20, 0x3]), Some(0x5003));
    assert_eq!(resolve(vec![0x8, 0x20, 0x3, 0x0]), None);
    assert_eq!(PointerPath { rva: 0x9000, rest: vec![0] }.resolve_addr(&mem), None);
}

#[test]
fn attaches_by_names_of_either_case_agree() {
    let attach = |name: &str| ProcMem::attach(fake(process_pieces()), &running(), name);
    match (attach("REKORDBOX"), attach("rekordbox")) {
        (Ok(a), Ok(b)) => {
            assert_eq!((a.pid, a.base, a.image_size), (b.pid, b.base, b.image_size));
            assert_eq!(a.image_size, a.task.compute_image_size(a.base));
        }
        _ => panic!("not attached"),
    }
    let refused = |name: &str| {
        let mut kernel = fake(process_pieces());
        kernel.task = Err(5);
        failure(ProcMem::attach(kernel, &running(), name))
    };
    assert_eq!(refused("REKORDBOX"), refused("rekordbox"));
}

/// A kernel that once reports a region below the address asked about.
struct Downward {}

impl Kernel for Downward {
    fn task_for_pid(&self, _pid: i32) -> Result<u32, i32> {
        Ok(0)
    }
    fn all_image_info_addr(&self, _port: u32) -> Result<u64, i32> {
        Ok(0)
    }
    fn vm_read(&self, _port: u32, _address: u64, _size: u64) -> Result<Vec<u8>, i32> {
        Err(1)
    }
    fn vm_region(&self, _port: u32, address: u64) -> Result<VmRegion, i32> {
        match address {
            1 => Ok(VmRegion { address: 0x3000, size: 0x1000, protection: 1 }),
            0x4000 => Ok(VmRegion { address: 0x1000, size: 0x1000, protection: 1 }),
            0x2000 => Ok(VmRegion { address: 0x5000, size: 0x1000, protection: 3 }),
            _ => Err(1),
        }
    }
}

#[test]
fn enumeration_asks_on_after_a_report_from_below() {
    let task = Task { kernel: Downward {}, port: 0 };
    let addrs: Vec<usize> = task.enumerate_regions().iter().map(|r| r.addr).collect();
    assert_eq!(addrs, vec![0x3000, 0x1000, 0x5000]);
}
