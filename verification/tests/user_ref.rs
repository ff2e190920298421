use lib::mm::address::{VirtAddr, PAGE_SIZE};
use lib::mm::page_table::{PageTable, PhysMemory, PTE_R, PTE_U, PTE_V, PTE_W};
use lib::mm::user_ref::UserRef;

const RWU: u8 = PTE_V | PTE_R | PTE_W | PTE_U;

/// Virtual pages 1 and 2 map to frames 2 and 0; memory has three frames.
fn space() -> (PageTable, PhysMemory) {
    let mut pt = PageTable::new(77);
    pt.map(1, 2, RWU);
    pt.map(2, 0, RWU);
    (pt, PhysMemory::new(3))
}

#[test]
fn virt_addr_splits_into_page_and_offset() {
    let va = VirtAddr(3 * PAGE_SIZE + 17);
    assert_eq!(va.floor(), 3);
    assert_eq!(va.page_offset(), 17);
    assert!(!va.aligned());
    assert!(VirtAddr(2 * PAGE_SIZE).aligned());
}

#[test]
fn new_takes_size_of_type() {
    let r = UserRef::<u64>::new(0x1000, 5);
    assert_eq!(r.len(), 8);
    let r = UserRef::<u8>::new(0x1000, 5);
    assert_eq!(r.len(), 1);
}

#[test]
fn write_then_read_across_a_page_boundary() {
    let (pt, mut mem) = space();
    let addr = 2 * PAGE_SIZE - 3;
    let value = [1u8, 2, 3, 4, 5, 6, 7, 8];
    assert_eq!(UserRef::<u64>::new(addr, 77).write(&pt, &mut mem, &value), Ok(()));
    // the first three bytes land at the end of frame 2, the rest at the start of frame 0
    assert_eq!(mem.read_byte(3 * PAGE_SIZE - 3), 1);
    assert_eq!(mem.read_byte(3 * PAGE_SIZE - 1), 3);
    assert_eq!(mem.read_byte(0), 4);
    assert_eq!(mem.read_byte(4), 8);
    let back = UserRef::<u64>::new(addr, 77).read(&pt, &mem);
    assert_eq!(back, Some(value.to_vec()));
}

#[test]
fn read_of_unmapped_page_fails() {
    let (pt, mem) = space();
    assert_eq!(UserRef::<u64>::new(3 * PAGE_SIZE - 4, 77).read(&pt, &mem), None);
    assert_eq!(UserRef::<u8>::new(10, 77).read(&pt, &mem), None);
}

#[test]
fn write_stops_at_first_unwritable_page() {
    let (mut pt, mut mem) = space();
    pt.map(2, 0, PTE_V | PTE_R | PTE_U);
    let addr = 2 * PAGE_SIZE - 2;
    let value = [9u8, 8, 7, 6];
    assert_eq!(UserRef::<u32>::new(addr, 77).write(&pt, &mut mem, &value), Err(()));
    // the bytes in the writable page were stored, the others not
    assert_eq!(mem.read_byte(3 * PAGE_SIZE - 2), 9);
    assert_eq!(mem.read_byte(3 * PAGE_SIZE - 1), 8);
    assert_eq!(mem.read_byte(0), 0);
    assert_eq!(mem.read_byte(1), 0);
}

#[test]
fn page_without_user_bit_is_refused() {
    let (mut pt, mut mem) = space();
    pt.map(1, 2, PTE_V | PTE_R | PTE_W);
    assert_eq!(UserRef::<u8>::new(PAGE_SIZE, 77).read(&pt, &mem), None);
    assert_eq!(UserRef::<u8>::new(PAGE_SIZE, 77).write(&pt, &mut mem, &[1]), Err(()));
    assert_eq!(mem.read_byte(2 * PAGE_SIZE), 0);
}

#[test]
fn invalid_entry_is_refused() {
    let (mut pt, mem) = space();
    pt.map(1, 2, PTE_R | PTE_W | PTE_U);
    assert_eq!(UserRef::<u8>::new(PAGE_SIZE + 5, 77).read(&pt, &mem), None);
    pt.unmap(1);
    assert_eq!(pt.translate(1).is_none(), true);
}

#[test]
fn page_table_entry_flags() {
    let (pt, _) = space();
    let e = pt.translate(1).unwrap();
    assert_eq!(e.ppn(), 2);
    assert!(e.is_valid() && e.readable() && e.writable() && e.exposed_to_user());
    assert!(!e.executable());
    assert_eq!(pt.token(), 77);
}

#[test]
fn with_len_takes_the_given_length() {
    let (pt, mut mem) = space();
    let r = UserRef::<u8>::with_len(PAGE_SIZE + 10, 77, 3);
    assert_eq!(r.len(), 3);
    assert_eq!(r.write(&pt, &mut mem, &[4, 5, 6]), Ok(()));
    let back = UserRef::<u8>::with_len(PAGE_SIZE + 10, 77, 3).read(&pt, &mem);
    assert_eq!(back, Some(vec![4, 5, 6]));
}
