//! Access to the memory of a process.
use crate::bytes;
use crate::bytes::le_word;
use crate::process;
use crate::process::{find_process, Process};
use crate::region::{Image, Region};
use crate::task;
use crate::task::{Kernel, Task, VmRegion};
use crate::text;
use crate::text::{cstring, push_decimal};
use vstd::prelude::*;
use vstd::string::StringExecFns;

verus! {

/// A process to read from.
pub struct ProcMem<K: Kernel> {
    pub task: Task<K>,
    pub pid: i32,
    /// Load address of the main executable image.
    pub base: usize,
    /// Extent of the main image; static range is `[base, base + image_size)`.
    pub image_size: usize,
}

/// What is said where no process goes by a name.
pub open spec fn not_found_message(name: Seq<char>) -> Seq<char> {
    "Process '"@ + name + "' not found — is it running?"@
}

/// What is said where the kernel does not give out a task.
pub open spec fn task_message(code: int) -> Seq<char> {
    "task_for_pid failed (mach error "@ + text::decimal(code)
        + "). Re-sign Rekordbox with get-task-allow: run ./resign_rekordbox.sh"@
}

/// What is said where the kernel does not tell where the loader keeps its data.
pub open spec fn info_message(code: int) -> Seq<char> {
    "task_info(TASK_DYLD_INFO) failed: "@ + text::decimal(code)
}

/// An outcome whose failure is told in characters.
pub open spec fn told<T>(r: Result<T, String>) -> Result<T, Seq<char>> {
    match r {
        Ok(x) => Ok(x),
        Err(e) => Err(e@),
    }
}

impl<K: Kernel> Task<K> {
    /// The load address of the main image may be found as `base`: the loader's data hold the
    /// address of the list of images in their bytes 8 to 16, and the first eight bytes of that list
    /// are the load address.
    pub open spec fn may_load_at(&self, base: Result<usize, Seq<char>>) -> bool {
        exists|info: Result<u64, i32>| #[trigger]
            call_ensures(K::all_image_info_addr, (&self.kernel, self.port), info) && match info {
                Err(code) => base == Err::<usize, Seq<char>>(info_message(code as int)),
                Ok(addr) => self.may_load_from(addr, base),
            }
    }

    /// The load address may be found as `base` from the loader's data at `addr`.
    pub open spec fn may_load_from(&self, addr: u64, base: Result<usize, Seq<char>>) -> bool {
        exists|header: Option<Seq<u8>>| #[trigger]
            self.may_fill(addr, 16, header) && match header {
                None => base == Err::<usize, Seq<char>>("Failed to read dyld_all_image_infos"@),
                Some(h) => self.may_load_first(bytes::le_at(h, 8, 8) as u64, base),
            }
    }

    /// The load address may be found as `base` from the list of images at `array`.
    pub open spec fn may_load_first(&self, array: u64, base: Result<usize, Seq<char>>) -> bool {
        exists|first: Option<Seq<u8>>| #[trigger]
            self.may_fill(array, 8, first) && base == (match first {
                None => Err::<usize, Seq<char>>("Failed to read dyld image info array"@),
                Some(f) => Ok(bytes::le_value(f) as u64 as usize),
            })
    }

    /// Finds the load address of the main image.
    pub fn discover_base(&self) -> (base: Result<usize, String>)
        ensures
            self.may_load_at(told(base)),
    {
        let info = self.kernel.all_image_info_addr(self.port);
        match info {
            Err(code) => {
                let mut message = "task_info(TASK_DYLD_INFO) failed: ".to_owned();
                push_decimal(&mut message, code);
                assert(message@ == info_message(code as int));
                Err(message)
            },
            Ok(addr) => self.base_from(addr),
        }
    }

    /// Finds the load address of the main image from the loader's data at `addr`.
    fn base_from(&self, addr: u64) -> (base: Result<usize, String>)
        ensures
            self.may_load_from(addr, told(base)),
    {
        // dyld_all_image_infos: version(u32), infoArrayCount(u32), infoArray(u64)
        let header = self.raw_read(addr, 16);
        let ghost header_bytes = task::as_bytes(header);
        assert(self.may_fill(addr, 16, header_bytes));
        match header {
            None => {
                let message = "Failed to read dyld_all_image_infos".to_owned();
                assert(message@ == "Failed to read dyld_all_image_infos"@);
                Err(message)
            },
            Some(h) => self.first_base(le_word(h.as_slice(), 8, 8)),
        }
    }

    /// Finds the load address of the main image from the list of images at `array`.
    fn first_base(&self, array: u64) -> (base: Result<usize, String>)
        ensures
            self.may_load_first(array, told(base)),
    {
        // first dyld_image_info: imageLoadAddress(u64), ...
        let first = self.raw_read(array, 8);
        let ghost first_bytes = task::as_bytes(first);
        assert(self.may_fill(array, 8, first_bytes));
        match first {
            None => {
                let message = "Failed to read dyld image info array".to_owned();
                assert(message@ == "Failed to read dyld image info array"@);
                Err(message)
            },
            Some(f) => {
                assert(f@.subrange(0, 8) =~= f@);
                Ok(le_word(f.as_slice(), 0, 8) as usize)
            },
        }
    }
}

/// The first process of a list that goes by `name` is the `i`-th.
pub open spec fn chosen(processes: Seq<Process>, name: Seq<char>, i: int) -> bool {
    &&& 0 <= i < processes.len()
    &&& process::goes_by(processes[i], name)
    &&& forall|j: int| 0 <= j < i ==> !process::goes_by(#[trigger] processes[j], name)
}

impl<K: Kernel> ProcMem<K> {
    /// Attaching to the process `pid` may end as `outcome`.
    pub open spec fn may_attach(
        kernel: K,
        pid: i32,
        outcome: Result<ProcMem<K>, Seq<char>>,
    ) -> bool {
        exists|port: Result<u32, i32>| #[trigger]
            call_ensures(K::task_for_pid, (&kernel, pid), port) && match port {
                Err(code) => outcome == Err::<ProcMem<K>, Seq<char>>(task_message(code as int)),
                Ok(port) => Self::may_attach_task(Task { kernel, port }, pid, outcome),
            }
    }

    /// Attaching to a task may end as `outcome`.
    pub open spec fn may_attach_task(
        task: Task<K>,
        pid: i32,
        outcome: Result<ProcMem<K>, Seq<char>>,
    ) -> bool {
        exists|base: Result<usize, Seq<char>>| #[trigger]
            task.may_load_at(base) && match base {
                Err(message) => outcome == Err::<ProcMem<K>, Seq<char>>(message),
                Ok(base) => outcome matches Ok(mem) && mem.task == task && mem.pid == pid
                    && mem.base == base && task.may_measure(base, mem.image_size),
            }
    }

    /// Attaching by `name`, with these processes running, may end as `outcome`: the first of them
    /// that goes by the name is attached to, and where none does, that is said.
    pub open spec fn may_attach_by(
        kernel: K,
        processes: Seq<Process>,
        name: Seq<char>,
        outcome: Result<ProcMem<K>, Seq<char>>,
    ) -> bool {
        &&& (forall|i: int|
            0 <= i < processes.len() ==> !process::goes_by(#[trigger] processes[i], name))
            ==> outcome == Err::<ProcMem<K>, Seq<char>>(not_found_message(name))
        &&& forall|i: int| #[trigger]
            chosen(processes, name, i) ==> Self::may_attach(
                kernel,
                processes[i].pid as i32,
                outcome,
            )
    }

    /// Attach to a process by (case-insensitive) name, e.g. "rekordbox".
    pub fn attach(kernel: K, processes: &Vec<Process>, name: &str) -> (mem: Result<
        ProcMem<K>,
        String,
    >)
        ensures
            Self::may_attach_by(kernel, processes@, name@, told(mem)),
    {
        let index = match find_process(processes, name) {
            Some(i) => i,
            None => {
                let mut message = "Process '".to_owned();
                message.append(name);
                message.append("' not found — is it running?");
                return Err(message);
            },
        };
        proof {
            assert forall|i: int| #[trigger] chosen(processes@, name@, i) implies i == index by {
                if i < index {
                    assert(!process::goes_by(processes@[i], name@));
                }
                if i > index {
                    assert(!process::goes_by(processes@[index as int], name@));
                }
            }
        }
        let pid = processes[index].pid as i32;
        let ghost kernel0 = kernel;
        let port = kernel.task_for_pid(pid);
        match port {
            Err(code) => {
                let mut message = "task_for_pid failed (mach error ".to_owned();
                push_decimal(&mut message, code);
                message.append(
                    "). Re-sign Rekordbox with get-task-allow: run ./resign_rekordbox.sh",
                );
                Err(message)
            },
            Ok(port) => {
                let task = Task { kernel, port };
                let ghost task0 = task;
                let found = task.discover_base();
                assert(task0.may_load_at(told(found)));
                let mem = match found {
                    Err(message) => Err(message),
                    Ok(base) => {
                        let image_size = task.compute_image_size(base);
                        Ok(ProcMem { task, pid, base, image_size })
                    },
                };
                assert(Self::may_attach_task(task0, pid, told(mem)));
                mem
            },
        }
    }

    /// The main image.
    pub open spec fn image_range(&self) -> Image {
        Image { base: self.base, size: self.image_size }
    }

    /// The main image.
    pub fn image(&self) -> (image: Image)
        ensures
            image == self.image_range(),
    {
        Image { base: self.base, size: self.image_size }
    }

    /// Read a value of `size` bytes from the target; what could not be copied is zero.
    pub fn read(&self, address: usize, size: usize) -> (got: Option<Vec<u8>>)
        ensures
            self.task.may_read(address, size, task::as_bytes(got)),
    {
        self.task.read(address, size)
    }

    pub fn read_u64(&self, address: usize) -> (got: Option<u64>)
        ensures
            self.task.may_read_u64(address, got),
    {
        self.task.read_u64(address)
    }

    /// Bulk-read up to `len` bytes; returns however many were readable.
    pub fn read_bytes(&self, address: usize, len: usize) -> (got: Option<Vec<u8>>)
        ensures
            self.task.may_copy(address as u64, len as u64, task::as_bytes(got)),
    {
        self.task.read_bytes(address, len)
    }

    /// Read a NUL-terminated ASCII/UTF-8 string (bounded by `max`).
    pub fn read_cstring(&self, address: usize, max: usize) -> (text: Option<String>)
        ensures
            exists|got: Option<Seq<u8>>| #[trigger]
                self.task.may_copy(address as u64, max as u64, got) && text::as_chars(text) == (
                match got {
                    Some(b) => text::cstring_text(b),
                    None => None,
                }),
    {
        let got = self.read_bytes(address, max);
        let ghost got_bytes = task::as_bytes(got);
        assert(self.task.may_copy(address as u64, max as u64, got_bytes));
        match got {
            Some(b) => cstring(b),
            None => None,
        }
    }

    /// Enumerate all readable regions.
    pub fn enumerate_regions(&self) -> (regions: Vec<Region>)
        ensures
            exists|replies: Seq<Result<VmRegion, i32>>| #[trigger]
                self.task.may_report(replies) && regions@ == task::all_reported(replies),
    {
        self.task.enumerate_regions()
    }

    /// Whether an address lies in the main image.
    pub fn in_static_range(&self, addr: usize) -> (yes: bool)
        ensures
            yes == self.image_range().holds(addr),
    {
        self.image().contains(addr)
    }
}

} // verus!
