//! Process management system calls: what each call decides and computes. The
//! kernel services around them (the scheduler, the timer, the memory set of
//! the current task) hand their state and results in as arguments.
use vstd::prelude::*;
use crate::mm::address::{PAGE_SIZE, VirtAddr};
use crate::mm::page_table::{PageTable, PhysMemory};
use crate::mm::user_ref::{
    UserRef, can_read_at, frames_within, phys_addr, writable_len, written,
};

verus! {

/// Seconds and microseconds, as user programs read them.
#[derive(Debug)]
pub struct TimeVal {
    pub sec: usize,
    pub usec: usize,
}

/// The little-endian bytes of a `usize`.
pub open spec fn usize_le_bytes(v: usize) -> Seq<u8> {
    if usize::BITS == 64 {
        vstd::bytes::spec_u64_to_le_bytes(v as u64)
    } else {
        vstd::bytes::spec_u32_to_le_bytes(v as u32)
    }
}

/// The bytes of a `TimeVal` in user memory: `sec`, then `usec`.
pub open spec fn time_val_bytes(sec: usize, usec: usize) -> Seq<u8> {
    usize_le_bytes(sec) + usize_le_bytes(usec)
}

/// The size of a `TimeVal` in user memory: two `usize`s.
pub open spec fn time_val_len() -> int {
    2 * vstd::layout::size_of::<usize>() as int
}

/// The bytes of a `TimeVal` are as many as `time_val_len`, and decode back
/// to its two fields.
pub proof fn lemma_time_val_bytes(sec: usize, usec: usize)
    ensures
        time_val_bytes(sec, usec).len() == time_val_len(),
        usize::BITS == 64 ==> vstd::bytes::spec_u64_from_le_bytes(time_val_bytes(sec, usec).subrange(0, 8))
            == sec as u64 && vstd::bytes::spec_u64_from_le_bytes(time_val_bytes(sec, usec).subrange(8, 16))
            == usec as u64,
        usize::BITS == 32 ==> vstd::bytes::spec_u32_from_le_bytes(time_val_bytes(sec, usec).subrange(0, 4))
            == sec as u32 && vstd::bytes::spec_u32_from_le_bytes(time_val_bytes(sec, usec).subrange(4, 8))
            == usec as u32,
{
    vstd::bytes::lemma_auto_spec_u64_to_from_le_bytes();
    vstd::bytes::lemma_auto_spec_u32_to_from_le_bytes();
    let b = time_val_bytes(sec, usec);
    if usize::BITS == 64 {
        assert(b.subrange(0, 8) =~= vstd::bytes::spec_u64_to_le_bytes(sec as u64));
        assert(b.subrange(8, 16) =~= vstd::bytes::spec_u64_to_le_bytes(usec as u64));
    } else {
        assert(b.subrange(0, 4) =~= vstd::bytes::spec_u32_to_le_bytes(sec as u32));
        assert(b.subrange(4, 8) =~= vstd::bytes::spec_u32_to_le_bytes(usec as u32));
    }
}

fn usize_to_le_bytes(v: usize) -> (b: Vec<u8>)
    ensures
        b@ == usize_le_bytes(v),
        b@.len() == vstd::layout::size_of::<usize>(),
{
    proof {
        vstd::bytes::lemma_auto_spec_u64_to_from_le_bytes();
        vstd::bytes::lemma_auto_spec_u32_to_from_le_bytes();
    }
    if usize::BITS == 64 {
        vstd::bytes::u64_to_le_bytes(v as u64)
    } else {
        vstd::bytes::u32_to_le_bytes(v as u32)
    }
}

impl TimeVal {
    /// The time `time_us`, in microseconds, as seconds and microseconds.
    pub fn from_us(time_us: usize) -> (tv: TimeVal)
        ensures
            tv.sec == time_us / 1_000_000,
            tv.usec == time_us % 1_000_000,
            tv.usec < 1_000_000,
            tv.sec * 1_000_000 + tv.usec == time_us,
    {
        TimeVal { sec: time_us / 1_000_000, usec: time_us % 1_000_000 }
    }

    /// The bytes of the value in user memory.
    pub fn to_bytes(&self) -> (b: Vec<u8>)
        ensures
            b@ == time_val_bytes(self.sec, self.usec),
            b@.len() == time_val_len(),
    {
        let mut b = usize_to_le_bytes(self.sec);
        let mut u = usize_to_le_bytes(self.usec);
        b.append(&mut u);
        b
    }
}

/// What the scheduler is asked to do with the current task.
#[derive(PartialEq, Eq, Structural, Debug)]
pub enum TaskAction {
    /// The current task exits, and the next one runs.
    ExitCurrent,
    /// The current task gives up the processor, and the next one runs.
    SuspendCurrent,
}

/// The task exits: the exit code is not kept.
pub fn sys_exit(_exit_code: i32) -> (action: TaskAction)
    ensures
        action == TaskAction::ExitCurrent,
{
    TaskAction::ExitCurrent
}

/// The current task gives up the processor; the call returns 0.
pub fn sys_yield() -> (r: (TaskAction, isize))
    ensures
        r.0 == TaskAction::SuspendCurrent,
        r.1 == 0,
{
    (TaskAction::SuspendCurrent, 0)
}

/// Write the time `time_us` (microseconds, as the timer gave it) as a
/// `TimeVal` to user address `ts` of the current address space: `sec`, then
/// `usec`, each a little-endian `usize`. Returns 0 on success and -1 when
/// some page of the target may not be written from user mode (the pages
/// before it are written).
pub fn sys_get_time(ts: usize, _tz: usize, time_us: usize, page_table: &PageTable, memory: &mut PhysMemory) -> (r: isize)
    requires
        frames_within(page_table@, old(memory)@.len() as int),
        ts + time_val_len() <= usize::MAX + 1,
    ensures
        ({
            let bytes = time_val_bytes(time_us / 1_000_000, time_us % 1_000_000);
            let n = writable_len(page_table@, ts as int, time_val_len());
            &&& final(memory)@ == written(old(memory)@, page_table@, ts as int, bytes, n)
            &&& r == if n == time_val_len() { 0isize } else { -1isize }
        }),
{
    let tv = TimeVal::from_us(time_us);
    let bytes = tv.to_bytes();
    let user_ref = UserRef::<TimeVal>::with_len(ts, page_table.token(), bytes.len());
    match user_ref.write(page_table, memory, bytes.as_slice()) {
        Ok(_) => 0,
        Err(_) => -1,
    }
}

/// Trace requests: 0 reads the byte at user address `id` (the byte, or -1
/// when it may not be read); 1 writes `data`'s low byte there (0, or -1 when
/// it may not be written); 2 gives how many times the current task has made
/// system call `id`, from its counts `syscall_stat`; any other request gives -1.
pub fn sys_trace(
    trace_request: usize,
    id: usize,
    data: usize,
    page_table: &PageTable,
    memory: &mut PhysMemory,
    syscall_stat: &[usize],
) -> (r: isize)
    requires
        frames_within(page_table@, old(memory)@.len() as int),
        trace_request == 2 ==> id < syscall_stat@.len(),
    ensures
        trace_request == 0 ==> {
            &&& final(memory)@ == old(memory)@
            &&& r == if can_read_at(page_table@, id as int) {
                old(memory)@[phys_addr(page_table@, id as int)] as isize
            } else {
                -1isize
            }
        },
        trace_request == 1 ==> {
            let n = writable_len(page_table@, id as int, 1);
            &&& final(memory)@ == written(old(memory)@, page_table@, id as int, seq![data as u8], n)
            &&& r == if n == 1 { 0isize } else { -1isize }
        },
        trace_request == 2 ==> final(memory)@ == old(memory)@ && r == syscall_stat@[id as int] as isize,
        trace_request > 2 ==> final(memory)@ == old(memory)@ && r == -1,
{
    match trace_request {
        0 => {
            let user_ref = UserRef::<u8>::new(id, page_table.token());
            match user_ref.read(page_table, memory) {
                Some(value) => {
                    proof {
                        assert(id as int + 0 == id as int);
                    }
                    value[0] as isize
                },
                None => {
                    proof {
                        assert(id as int + 0 == id as int);
                    }
                    -1
                },
            }
        },
        1 => {
            let user_ref = UserRef::<u8>::new(id, page_table.token());
            let value: Vec<u8> = vec![data as u8];
            assert(value@ == seq![data as u8]);
            match user_ref.write(page_table, memory, value.as_slice()) {
                Ok(()) => 0,
                Err(()) => -1,
            }
        },
        2 => syscall_stat[id] as isize,
        _ => -1,
    }
}

/// The permission of a memory area, as flag bits: read, write, execute and
/// user access.
#[derive(Clone, Copy, PartialEq, Eq, Structural, Debug)]
pub struct MapPermission {
    pub bits: u8,
}

impl MapPermission {
    pub const R: u8 = 2u8;
    pub const W: u8 = 4u8;
    pub const X: u8 = 8u8;
    pub const U: u8 = 16u8;

    /// The permission with the known flags of `bits`; other bits are dropped.
    pub fn from_bits_truncate(bits: u8) -> (p: MapPermission)
        ensures
            p.bits == bits & 30u8,
    {
        MapPermission { bits: bits & 30u8 }
    }
}

/// What a memory call asks of the memory set of the current task.
#[derive(PartialEq, Eq, Structural, Debug)]
pub enum MemoryAction {
    /// The arguments are refused: the call returns -1 with nothing done.
    Reject,
    /// Map `[start, start + len)` with `permission`.
    MapArea { start: usize, len: usize, permission: MapPermission },
    /// Unmap `[start, start + len)`.
    UnmapArea { start: usize, len: usize },
}

/// Map `len` bytes of memory from `start` for the current task, with the
/// permission in the low three bits of `prot` (read, write, execute). The
/// arguments are refused when `prot` grants nothing, has other bits, or
/// `start` is not page-aligned.
pub fn sys_mmap(start: usize, len: usize, prot: usize) -> (action: MemoryAction)
    ensures
        action == if !(1 <= prot <= 7) || start % PAGE_SIZE != 0 {
            MemoryAction::Reject
        } else {
            MemoryAction::MapArea { start, len, permission: MapPermission { bits: (prot * 2 + 16) as u8 } }
        },
{
    assert((prot & 7usize) == 0 || (prot & !7usize) != 0 <==> !(1 <= prot <= 7)) by (bit_vector);
    if prot & 0x7 == 0 || prot & !0x7 != 0 {
        return MemoryAction::Reject;
    }
    if !VirtAddr(start).aligned() {
        return MemoryAction::Reject;
    }
    let p = prot as u8;
    assert(((p << 1u8) | 16u8) & 30u8 == (p * 2 + 16) as u8) by (bit_vector)
        requires
            1 <= p <= 7,
    ;
    let permission = MapPermission::from_bits_truncate(p << 1 | 0x10);
    MemoryAction::MapArea { start, len, permission }
}

/// Unmap `len` bytes of memory from `start` for the current task; refused
/// when `start` is not page-aligned.
pub fn sys_munmap(start: usize, len: usize) -> (action: MemoryAction)
    ensures
        action == if start % PAGE_SIZE != 0 {
            MemoryAction::Reject
        } else {
            MemoryAction::UnmapArea { start, len }
        },
{
    if !VirtAddr(start).aligned() {
        return MemoryAction::Reject;
    }
    MemoryAction::UnmapArea { start, len }
}

/// What a memory call returns: -1 when its arguments were refused (the
/// action was not carried out, and `outcome` is not looked at); otherwise 0
/// when carrying out the action succeeded and -1 when it failed.
pub fn memory_action_result(action: &MemoryAction, outcome: Result<(), ()>) -> (r: isize)
    ensures
        r == if *action == MemoryAction::Reject {
            -1isize
        } else if outcome is Ok {
            0isize
        } else {
            -1isize
        },
{
    match action {
        MemoryAction::Reject => -1,
        _ => match outcome {
            Ok(_) => 0,
            Err(_) => -1,
        },
    }
}

/// What changing the data segment returns, given the old program break that
/// the change gave, or `None` when the change was refused.
pub fn sys_sbrk(old_brk: Option<usize>) -> (r: isize)
    ensures
        r == match old_brk {
            Some(b) => b as isize,
            None => -1isize,
        },
{
    if let Some(old_brk) = old_brk {
        old_brk as isize
    } else {
        -1
    }
}

} // verus!
