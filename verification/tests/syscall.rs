use lib::mm::address::PAGE_SIZE;
use lib::mm::page_table::{PageTable, PhysMemory, PTE_R, PTE_U, PTE_V, PTE_W};
use lib::syscall::process::{
    memory_action_result, sys_exit, sys_get_time, sys_mmap, sys_munmap, sys_sbrk, sys_trace,
    sys_yield, MapPermission, MemoryAction, TaskAction, TimeVal,
};

fn space() -> (PageTable, PhysMemory) {
    let mut pt = PageTable::new(3);
    pt.map(4, 1, PTE_V | PTE_R | PTE_W | PTE_U);
    pt.map(5, 0, PTE_V | PTE_R | PTE_U);
    (pt, PhysMemory::new(2))
}

#[test]
fn exit_and_yield_ask_the_scheduler() {
    assert_eq!(sys_exit(3), TaskAction::ExitCurrent);
    assert_eq!(sys_yield(), (TaskAction::SuspendCurrent, 0));
}

#[test]
fn get_time_writes_seconds_and_microseconds() {
    let (pt, mut mem) = space();
    let ts = 4 * PAGE_SIZE + 8;
    assert_eq!(sys_get_time(ts, 0, 3_500_042, &pt, &mut mem), 0);
    let w = std::mem::size_of::<usize>();
    let mut sec = [0u8; 8];
    let mut usec = [0u8; 8];
    for i in 0..w {
        sec[i] = mem.read_byte(PAGE_SIZE + 8 + i);
        usec[i] = mem.read_byte(PAGE_SIZE + 8 + w + i);
    }
    assert_eq!(u64::from_le_bytes(sec), 3);
    assert_eq!(u64::from_le_bytes(usec), 500_042);
}

#[test]
fn get_time_to_read_only_page_fails() {
    let (pt, mut mem) = space();
    assert_eq!(sys_get_time(5 * PAGE_SIZE, 0, 1_000_000, &pt, &mut mem), -1);
    assert_eq!(sys_get_time(9 * PAGE_SIZE, 0, 1_000_000, &pt, &mut mem), -1);
}

#[test]
fn time_val_bytes() {
    let tv = TimeVal::from_us(7_000_001);
    assert_eq!(tv.sec, 7);
    assert_eq!(tv.usec, 1);
    let b = tv.to_bytes();
    assert_eq!(b.len(), 2 * std::mem::size_of::<usize>());
    assert_eq!(b[0], 7);
    assert_eq!(b[std::mem::size_of::<usize>()], 1);
}

#[test]
fn trace_writes_then_reads_a_byte() {
    let (pt, mut mem) = space();
    let addr = 4 * PAGE_SIZE + 100;
    assert_eq!(sys_trace(1, addr, 0x1ab, &pt, &mut mem, &[]), 0);
    assert_eq!(mem.read_byte(PAGE_SIZE + 100), 0xab);
    assert_eq!(sys_trace(0, addr, 0, &pt, &mut mem, &[]), 0xab);
}

#[test]
fn trace_refuses_bad_addresses() {
    let (pt, mut mem) = space();
    assert_eq!(sys_trace(0, 7 * PAGE_SIZE, 0, &pt, &mut mem, &[]), -1);
    assert_eq!(sys_trace(1, 5 * PAGE_SIZE, 1, &pt, &mut mem, &[]), -1);
    assert_eq!(mem.read_byte(0), 0);
    // the read-only page can still be read
    assert_eq!(sys_trace(0, 5 * PAGE_SIZE, 0, &pt, &mut mem, &[]), 0);
}

#[test]
fn trace_counts_and_unknown_requests() {
    let (pt, mut mem) = space();
    let stat = [0usize, 4, 9];
    assert_eq!(sys_trace(2, 2, 0, &pt, &mut mem, &stat), 9);
    assert_eq!(sys_trace(2, 1, 0, &pt, &mut mem, &stat), 4);
    assert_eq!(sys_trace(3, 0, 0, &pt, &mut mem, &stat), -1);
}

#[test]
fn mmap_checks_prot_and_alignment() {
    assert_eq!(sys_mmap(0x1000, 10, 0), MemoryAction::Reject);
    assert_eq!(sys_mmap(0x1000, 10, 8), MemoryAction::Reject);
    assert_eq!(sys_mmap(0x1000, 10, 9), MemoryAction::Reject);
    assert_eq!(sys_mmap(0x1001, 10, 3), MemoryAction::Reject);
    assert_eq!(
        sys_mmap(0x2000, 10, 3),
        MemoryAction::MapArea { start: 0x2000, len: 10, permission: MapPermission { bits: 0b10110 } }
    );
    assert_eq!(
        sys_mmap(0, 1, 7),
        MemoryAction::MapArea { start: 0, len: 1, permission: MapPermission { bits: 0b11110 } }
    );
}

#[test]
fn map_permission_drops_unknown_bits() {
    let p = MapPermission::from_bits_truncate(0xff);
    assert_eq!(p.bits, MapPermission::R | MapPermission::W | MapPermission::X | MapPermission::U);
}

#[test]
fn munmap_checks_alignment() {
    assert_eq!(sys_munmap(0x1008, 4), MemoryAction::Reject);
    assert_eq!(sys_munmap(0x3000, 4), MemoryAction::UnmapArea { start: 0x3000, len: 4 });
}

#[test]
fn memory_results_and_sbrk() {
    let map = sys_mmap(0x2000, 10, 3);
    assert_eq!(memory_action_result(&map, Ok(())), 0);
    assert_eq!(memory_action_result(&map, Err(())), -1);
    let unmap = sys_munmap(0x2000, 10);
    assert_eq!(memory_action_result(&unmap, Ok(())), 0);
    assert_eq!(memory_action_result(&sys_mmap(0x2001, 10, 3), Ok(())), -1);
    assert_eq!(memory_action_result(&sys_munmap(0x2001, 10), Err(())), -1);
    assert_eq!(sys_sbrk(Some(0x8000)), 0x8000);
    assert_eq!(sys_sbrk(None), -1);
}

#[test]
fn time_val_splits_microseconds() {
    let tv = TimeVal::from_us(123_456_789);
    assert_eq!(tv.sec, 123);
    assert_eq!(tv.usec, 456_789);
    assert_eq!(tv.sec * 1_000_000 + tv.usec, 123_456_789);
}

#[test]
fn get_time_stops_at_read_only_page() {
    let (pt, mut mem) = space();
    // the value starts 4 bytes before the end of the writable page
    let ts = 5 * PAGE_SIZE - 4;
    assert_eq!(sys_get_time(ts, 0, 9_000_000, &pt, &mut mem), -1);
    assert_eq!(mem.read_byte(2 * PAGE_SIZE - 4), 9);
    assert_eq!(mem.read_byte(0), 0);
}
