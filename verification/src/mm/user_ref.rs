//! Access to user-space memory from the kernel, page by page, with a
//! permission check on each page.
use core::marker::PhantomData;
use vstd::prelude::*;
use crate::mm::address::{PAGE_SIZE, VirtAddr};
use crate::mm::page_table::{PageTable, PageTableView, PhysMemory, user_readable, user_writable};

verus! {

/// The virtual page that holds address `va`.
pub open spec fn page_of(va: int) -> usize {
    (va / (PAGE_SIZE as int)) as usize
}

/// A user-mode load from `va` is allowed by the page table.
pub open spec fn can_read_at(pt: PageTableView, va: int) -> bool {
    pt.entries.contains_key(page_of(va)) && user_readable(pt.entries[page_of(va)])
}

/// A user-mode store to `va` is allowed by the page table.
pub open spec fn can_write_at(pt: PageTableView, va: int) -> bool {
    pt.entries.contains_key(page_of(va)) && user_writable(pt.entries[page_of(va)])
}

/// The physical address that `va` translates to.
pub open spec fn phys_addr(pt: PageTableView, va: int) -> int {
    pt.entries[page_of(va)].ppn * (PAGE_SIZE as int) + va % (PAGE_SIZE as int)
}

/// Every frame that the page table names lies within a memory of `mem_len` bytes.
pub open spec fn frames_within(pt: PageTableView, mem_len: int) -> bool {
    forall|vpn: usize| #[trigger]
        pt.entries.contains_key(vpn) ==> (pt.entries[vpn].ppn + 1) * (PAGE_SIZE as int) <= mem_len
}

/// Every byte of `[start, start + len)` may be read from user mode.
pub open spec fn readable_range(pt: PageTableView, start: int, len: int) -> bool {
    forall|o: int| 0 <= o < len ==> #[trigger] can_read_at(pt, start + o)
}

/// The bytes of `[start, start + len)`, as user mode sees them.
pub open spec fn read_range(mem: Seq<u8>, pt: PageTableView, start: int, len: int) -> Seq<u8> {
    Seq::new(len as nat, |o: int| mem[phys_addr(pt, start + o)])
}

/// From offset `o` on, the first offset in `[o, len)` whose byte may not be
/// written from user mode, or `len` when there is none.
pub open spec fn writable_run(pt: PageTableView, start: int, len: int, o: int) -> int
    decreases len - o,
{
    if o >= len || !can_write_at(pt, start + o) {
        o
    } else {
        writable_run(pt, start, len, o + 1)
    }
}

/// How many leading bytes of `[start, start + len)` may be written from user mode.
pub open spec fn writable_len(pt: PageTableView, start: int, len: int) -> int {
    writable_run(pt, start, len, 0)
}

/// Memory after storing `value[o]` at the address of `start + o`, for each
/// `o < n` in turn.
pub open spec fn written(mem: Seq<u8>, pt: PageTableView, start: int, value: Seq<u8>, n: int) -> Seq<u8>
    decreases n,
{
    if n <= 0 {
        mem
    } else {
        written(mem, pt, start, value, n - 1).update(phys_addr(pt, start + n - 1), value[n - 1])
    }
}

/// Bytes at offsets `k < PAGE_SIZE - page offset` from an address share its page.
proof fn lemma_same_page(a: int, k: int)
    requires
        0 <= a,
        0 <= k,
        a % (PAGE_SIZE as int) + k < (PAGE_SIZE as int),
    ensures
        (a + k) / (PAGE_SIZE as int) == a / (PAGE_SIZE as int),
        (a + k) % (PAGE_SIZE as int) == a % (PAGE_SIZE as int) + k,
{
    vstd::arithmetic::div_mod::lemma_fundamental_div_mod(a, (PAGE_SIZE as int));
    vstd::arithmetic::div_mod::lemma_fundamental_div_mod(a + k, (PAGE_SIZE as int));
    vstd::arithmetic::div_mod::lemma_mod_bound(a, (PAGE_SIZE as int));
    vstd::arithmetic::div_mod::lemma_mod_bound(a + k, (PAGE_SIZE as int));
    vstd::arithmetic::div_mod::lemma_div_pos_is_pos(a, (PAGE_SIZE as int));
    let q = a / (PAGE_SIZE as int);
    let q2 = (a + k) / (PAGE_SIZE as int);
    assert(q2 == q) by (nonlinear_arith)
        requires
            a == (PAGE_SIZE as int) * q + a % (PAGE_SIZE as int),
            a + k == (PAGE_SIZE as int) * q2 + (a + k) % (PAGE_SIZE as int),
            0 <= a % (PAGE_SIZE as int),
            0 <= (a + k) % (PAGE_SIZE as int) < (PAGE_SIZE as int),
            a % (PAGE_SIZE as int) + k < (PAGE_SIZE as int),
            0 <= k,
    ;
}

/// The physical address of a byte lies in the frame of its page.
proof fn lemma_phys_in_frame(pt: PageTableView, mem_len: int, va: int)
    requires
        frames_within(pt, mem_len),
        pt.entries.contains_key(page_of(va)),
        0 <= va,
    ensures
        0 <= phys_addr(pt, va) < mem_len,
{
    assert(pt.entries.contains_key(page_of(va)));
    vstd::arithmetic::div_mod::lemma_mod_bound(va, (PAGE_SIZE as int));
}

/// Leading writable bytes can be skipped when counting the writable run.
proof fn lemma_writable_run_skip(pt: PageTableView, start: int, len: int, o: int)
    requires
        0 <= o <= len,
        forall|q: int| 0 <= q < o ==> #[trigger] can_write_at(pt, start + q),
    ensures
        writable_run(pt, start, len, 0) == writable_run(pt, start, len, o),
    decreases o,
{
    if o > 0 {
        lemma_writable_run_skip(pt, start, len, o - 1);
        assert(can_write_at(pt, start + (o - 1)));
    }
}

/// The writable run from `o` ends inside the range, every byte before its end
/// may be written, and the byte at its end, if inside the range, may not.
proof fn lemma_writable_run_bounds(pt: PageTableView, start: int, len: int, o: int)
    requires
        0 <= o <= len,
    ensures
        o <= writable_run(pt, start, len, o) <= len,
        forall|q: int| o <= q < writable_run(pt, start, len, o) ==> #[trigger] can_write_at(pt, start + q),
        writable_run(pt, start, len, o) < len ==> !can_write_at(pt, start + writable_run(pt, start, len, o)),
    decreases len - o,
{
    if o < len && can_write_at(pt, start + o) {
        lemma_writable_run_bounds(pt, start, len, o + 1);
    }
}

/// What `writable_len` is: the length of the longest prefix of the range whose
/// bytes may all be written from user mode.
pub proof fn lemma_writable_len(pt: PageTableView, start: int, len: int)
    requires
        0 <= len,
    ensures
        0 <= writable_len(pt, start, len) <= len,
        forall|q: int| 0 <= q < writable_len(pt, start, len) ==> #[trigger] can_write_at(pt, start + q),
        writable_len(pt, start, len) < len ==> !can_write_at(pt, start + writable_len(pt, start, len)),
{
    lemma_writable_run_bounds(pt, start, len, 0);
}

/// Storing a run of bytes keeps the size of memory, and each stored byte can
/// be found at its address when the run's addresses are distinct.
proof fn lemma_written_at(mem: Seq<u8>, pt: PageTableView, start: int, value: Seq<u8>, n: int)
    requires
        0 <= start,
        0 <= n <= value.len(),
        frames_within(pt, mem.len() as int),
        forall|o: int| 0 <= o < n ==> pt.entries.contains_key(#[trigger] page_of(start + o)),
        forall|o1: int, o2: int|
            0 <= o1 < n && 0 <= o2 < n && o1 != o2 ==> #[trigger] phys_addr(pt, start + o1)
                != #[trigger] phys_addr(pt, start + o2),
    ensures
        written(mem, pt, start, value, n).len() == mem.len(),
        forall|o: int| 0 <= o < n ==> #[trigger] written(mem, pt, start, value, n)[phys_addr(pt, start + o)] == value[o],
    decreases n,
{
    if n > 0 {
        lemma_written_at(mem, pt, start, value, n - 1);
        assert(pt.entries.contains_key(page_of(start + (n - 1))));
        lemma_phys_in_frame(pt, mem.len() as int, start + (n - 1));
        assert forall|o: int| 0 <= o < n implies #[trigger] written(mem, pt, start, value, n)[phys_addr(pt, start + o)] == value[o] by {
            if o < n - 1 {
                assert(pt.entries.contains_key(page_of(start + o)));
                lemma_phys_in_frame(pt, mem.len() as int, start + o);
                assert(phys_addr(pt, start + o) != phys_addr(pt, start + (n - 1)));
            }
        }
    }
}

/// Reading back a range that was just written in full gives the written
/// bytes, when the pages of the range may be read and written and no two of
/// its bytes share a physical address.
pub proof fn lemma_write_then_read(mem: Seq<u8>, pt: PageTableView, start: int, value: Seq<u8>)
    requires
        0 <= start,
        frames_within(pt, mem.len() as int),
        readable_range(pt, start, value.len() as int),
        writable_len(pt, start, value.len() as int) == value.len(),
        forall|o1: int, o2: int|
            0 <= o1 < value.len() && 0 <= o2 < value.len() && o1 != o2 ==> #[trigger] phys_addr(
                pt,
                start + o1,
            ) != #[trigger] phys_addr(pt, start + o2),
    ensures
        read_range(written(mem, pt, start, value, value.len() as int), pt, start, value.len() as int)
            == value,
{
    let n = value.len() as int;
    assert forall|o: int| 0 <= o < n implies pt.entries.contains_key(#[trigger] page_of(start + o)) by {
        assert(can_read_at(pt, start + o));
    }
    lemma_written_at(mem, pt, start, value, n);
    let r = read_range(written(mem, pt, start, value, n), pt, start, n);
    assert forall|o: int| 0 <= o < n implies r[o] == value[o] by {
        assert(written(mem, pt, start, value, n)[phys_addr(pt, start + o)] == value[o]);
    }
    assert(r =~= value);
}

/// Each byte read from user address `start + o` is the byte of memory at
/// the frame that the page table maps its page to, at its offset in the page.
pub proof fn lemma_read_from_mapped_frame(mem: Seq<u8>, pt: PageTableView, start: int, len: int)
    requires
        0 <= len,
    ensures
        read_range(mem, pt, start, len).len() == len,
        forall|o: int| 0 <= o < len ==> #[trigger] read_range(mem, pt, start, len)[o] == mem[pt.entries[((start + o) / (PAGE_SIZE as int)) as usize].ppn * (PAGE_SIZE as int) + (start + o) % (PAGE_SIZE as int)],
{
}

/// The addresses of the bytes of a range are distinct when no two pages of
/// the range share a frame.
proof fn lemma_distinct_frames_distinct_addrs(pt: PageTableView, start: int, len: int)
    requires
        0 <= start,
        start + len <= usize::MAX + 1,
        forall|o1: int, o2: int|
            0 <= o1 < len && 0 <= o2 < len && #[trigger] page_of(start + o1) != #[trigger] page_of(start + o2)
                ==> pt.entries[page_of(start + o1)].ppn != pt.entries[page_of(start + o2)].ppn,
    ensures
        forall|o1: int, o2: int|
            0 <= o1 < len && 0 <= o2 < len && o1 != o2 ==> #[trigger] phys_addr(pt, start + o1)
                != #[trigger] phys_addr(pt, start + o2),
{
    assert forall|o1: int, o2: int| 0 <= o1 < len && 0 <= o2 < len && o1 != o2 implies #[trigger] phys_addr(pt, start + o1)
        != #[trigger] phys_addr(pt, start + o2) by {
        let a = start + o1;
        let b = start + o2;
        let p = PAGE_SIZE as int;
        vstd::arithmetic::div_mod::lemma_fundamental_div_mod(a, p);
        vstd::arithmetic::div_mod::lemma_fundamental_div_mod(b, p);
        vstd::arithmetic::div_mod::lemma_mod_bound(a, p);
        vstd::arithmetic::div_mod::lemma_mod_bound(b, p);
        vstd::arithmetic::div_mod::lemma_div_pos_is_pos(a, p);
        vstd::arithmetic::div_mod::lemma_div_pos_is_pos(b, p);
        let qa = a / p;
        let qb = b / p;
        assert(qa <= a) by {
            vstd::arithmetic::div_mod::lemma_div_is_ordered_by_denominator(a, 1, p);
        }
        assert(qb <= b) by {
            vstd::arithmetic::div_mod::lemma_div_is_ordered_by_denominator(b, 1, p);
        }
        assert(page_of(a) as int == qa);
        assert(page_of(b) as int == qb);
        if qa == qb {
            assert(a % p != b % p);
        } else {
            let pa = pt.entries[page_of(a)].ppn as int;
            let pb = pt.entries[page_of(b)].ppn as int;
            assert(pa != pb);
            assert(pa * p + a % p != pb * p + b % p) by (nonlinear_arith)
                requires
                    pa != pb,
                    p == 4096,
                    0 <= a % p < p,
                    0 <= b % p < p,
            ;
        }
    }
}

/// After a range is written in full, each byte `value[o]` lies at the frame
/// that the page table maps the page of `start + o` to, at its offset in the
/// page, when no two pages of the range share a frame.
pub proof fn lemma_write_lands_in_mapped_frame(mem: Seq<u8>, pt: PageTableView, start: int, value: Seq<u8>)
    requires
        0 <= start,
        start + value.len() <= usize::MAX + 1,
        frames_within(pt, mem.len() as int),
        forall|o: int| 0 <= o < value.len() ==> pt.entries.contains_key(#[trigger] page_of(start + o)),
        forall|o1: int, o2: int|
            0 <= o1 < value.len() && 0 <= o2 < value.len() && #[trigger] page_of(start + o1) != #[trigger] page_of(start + o2)
                ==> pt.entries[page_of(start + o1)].ppn != pt.entries[page_of(start + o2)].ppn,
    ensures
        written(mem, pt, start, value, value.len() as int).len() == mem.len(),
        forall|o: int| 0 <= o < value.len() ==> #[trigger] written(mem, pt, start, value, value.len() as int)[
            pt.entries[((start + o) / (PAGE_SIZE as int)) as usize].ppn * (PAGE_SIZE as int) + (start + o) % (PAGE_SIZE as int)] == value[o],
{
    lemma_distinct_frames_distinct_addrs(pt, start, value.len() as int);
    lemma_written_at(mem, pt, start, value, value.len() as int);
    assert forall|o: int| 0 <= o < value.len() implies #[trigger] written(mem, pt, start, value, value.len() as int)[
        pt.entries[((start + o) / (PAGE_SIZE as int)) as usize].ppn * (PAGE_SIZE as int) + (start + o) % (PAGE_SIZE as int)] == value[o] by {
        assert(written(mem, pt, start, value, value.len() as int)[phys_addr(pt, start + o)] == value[o]);
    }
}

/// Writing the first `n` bytes of a range changes no byte of memory but the
/// ones at the frames and offsets of those bytes.
pub proof fn lemma_write_keeps_other_bytes(mem: Seq<u8>, pt: PageTableView, start: int, value: Seq<u8>, n: int, a: int)
    requires
        0 <= start,
        0 <= n <= value.len(),
        frames_within(pt, mem.len() as int),
        forall|o: int| 0 <= o < n ==> pt.entries.contains_key(#[trigger] page_of(start + o)),
        0 <= a < mem.len(),
        forall|o: int| 0 <= o < n ==> a != #[trigger] (pt.entries[((start + o) / (PAGE_SIZE as int)) as usize].ppn * (PAGE_SIZE as int) + (start + o) % (PAGE_SIZE as int)),
    ensures
        written(mem, pt, start, value, n).len() == mem.len(),
        written(mem, pt, start, value, n)[a] == mem[a],
    decreases n,
{
    if n > 0 {
        lemma_write_keeps_other_bytes(mem, pt, start, value, n - 1, a);
        assert(pt.entries.contains_key(page_of(start + (n - 1))));
        lemma_phys_in_frame(pt, mem.len() as int, start + (n - 1));
        assert(a != pt.entries[((start + (n - 1)) / (PAGE_SIZE as int)) as usize].ppn * (PAGE_SIZE as int) + (start + (n - 1)) % (PAGE_SIZE as int));
    }
}

/// What a `UserRef` holds: the user address, the token of the address space,
/// and the size of the referenced value.
pub struct UserRefView {
    pub user_ptr: usize,
    pub token: usize,
    pub len: usize,
}

/// A reference to a value of type `T` in user space, to be read or written
/// from the kernel with a permission check on each page it spans.
pub struct UserRef<T> {
    user_ptr: VirtAddr,
    token: usize,
    len: usize,
    phantom: PhantomData<T>,
}

impl<T> View for UserRef<T> {
    type V = UserRefView;

    closed spec fn view(&self) -> UserRefView {
        UserRefView { user_ptr: self.user_ptr.0, token: self.token, len: self.len }
    }
}

impl<T> UserRef<T> {
    /// A reference to the `T` at user address `user_ptr` in the address space
    /// named by `token`.
    pub fn new(user_ptr: usize, token: usize) -> (r: Self)
        ensures
            r@.user_ptr == user_ptr,
            r@.token == token,
            r@.len as nat == vstd::layout::size_of::<T>(),
    {
        Self {
            user_ptr: VirtAddr(user_ptr),
            token: token,
            len: core::mem::size_of::<T>(),
            phantom: PhantomData,
        }
    }

    /// A reference to a value of `len` bytes at user address `user_ptr` in
    /// the address space named by `token`, for a value whose bytes in user
    /// memory are known to be `len`.
    pub fn with_len(user_ptr: usize, token: usize, len: usize) -> (r: Self)
        ensures
            r@.user_ptr == user_ptr,
            r@.token == token,
            r@.len == len,
    {
        Self { user_ptr: VirtAddr(user_ptr), token: token, len: len, phantom: PhantomData }
    }

    /// The size of the referenced value, in bytes.
    pub fn len(&self) -> (n: usize)
        ensures
            n == self@.len,
    {
        self.len
    }

    /// Read the bytes of the value from user memory: `None` when some page
    /// of it may not be read from user mode.
    pub fn read(self, page_table: &PageTable, memory: &PhysMemory) -> (value: Option<Vec<u8>>)
        requires
            page_table@.token == self@.token,
            frames_within(page_table@, memory@.len() as int),
            self@.user_ptr + self@.len <= usize::MAX + 1,
        ensures
            value is Some <==> readable_range(page_table@, self@.user_ptr as int, self@.len as int),
            value matches Some(bytes) ==> bytes@ == read_range(
                memory@,
                page_table@,
                self@.user_ptr as int,
                self@.len as int,
            ),
    {
        let ghost pt = page_table@;
        let ghost ptr = self@.user_ptr as int;
        let ghost mem = memory@;
        let mem_len = memory.len();
        let mut buffer: Vec<u8> = Vec::new();
        let mut offset: usize = 0;
        while offset < self.len
            invariant
                pt == page_table@,
                mem == memory@,
                ptr == self.user_ptr.0,
                frames_within(pt, mem.len() as int),
                mem.len() == mem_len,
                ptr + self.len <= usize::MAX + 1,
                offset <= self.len,
                readable_range(pt, ptr, offset as int),
                buffer@ == read_range(mem, pt, ptr, offset as int),
            decreases self.len - offset,
        {
            let start = self.user_ptr.0 + offset;
            let current_vpn = VirtAddr(start).floor();
            match page_table.translate(current_vpn) {
                Some(pte) if pte.is_valid() && pte.readable() && pte.exposed_to_user() => {
                    let current_ppn = pte.ppn();
                    let page_offset = VirtAddr(start).page_offset();
                    let copy_len = if PAGE_SIZE - page_offset < self.len - offset {
                        PAGE_SIZE - page_offset
                    } else {
                        self.len - offset
                    };
                    proof {
                        assert(pt.entries.contains_key(current_vpn));
                        vstd::arithmetic::div_mod::lemma_mod_bound(start as int, (PAGE_SIZE as int));
                    }
                    let base = current_ppn * PAGE_SIZE + page_offset;
                    let mut k: usize = 0;
                    while k < copy_len
                        invariant
                            pt == page_table@,
                            mem == memory@,
                            ptr == self.user_ptr.0,
                            frames_within(pt, mem.len() as int),
                            mem.len() == mem_len,
                            ptr + self.len <= usize::MAX + 1,
                            offset < self.len,
                            offset + copy_len <= self.len,
                            start == ptr + offset,
                            page_offset == start % PAGE_SIZE,
                            page_offset + copy_len <= PAGE_SIZE,
                            current_vpn == page_of(start as int),
                            pt.entries.contains_key(current_vpn),
                            pt.entries[current_vpn] == pte,
                            user_readable(pte),
                            base == pte.ppn * PAGE_SIZE + page_offset,
                            (pte.ppn + 1) * PAGE_SIZE <= mem.len(),
                            k <= copy_len,
                            readable_range(pt, ptr, offset + k),
                            buffer@ == read_range(mem, pt, ptr, offset + k),
                        decreases copy_len - k,
                    {
                        proof {
                            lemma_same_page(start as int, k as int);
                            assert(ptr + (offset + k) == start + k);
                            assert(can_read_at(pt, ptr + (offset + k)));
                            assert(phys_addr(pt, ptr + (offset + k)) == base + k);
                        }
                        buffer.push(memory.read_byte(base + k));
                        proof {
                            assert(buffer@ =~= read_range(mem, pt, ptr, offset + k + 1));
                        }
                        k = k + 1;
                    }
                    offset = offset + copy_len;
                },
                _ => {
                    proof {
                        assert(!can_read_at(pt, ptr + offset));
                    }
                    return None;
                },
            }
        }
        if buffer.len() == self.len {
            Some(buffer)
        } else {
            None
        }
    }

    /// Write `value`, the bytes of the value, to user memory. The pages are
    /// written in turn up to the first one that may not be written from user
    /// mode, and `Err` is returned when there is such a page.
    pub fn write(self, page_table: &PageTable, memory: &mut PhysMemory, value: &[u8]) -> (r: Result<(), ()>)
        requires
            page_table@.token == self@.token,
            frames_within(page_table@, old(memory)@.len() as int),
            self@.user_ptr + self@.len <= usize::MAX + 1,
            value@.len() == self@.len,
        ensures
            final(memory)@ == written(
                old(memory)@,
                page_table@,
                self@.user_ptr as int,
                value@,
                writable_len(page_table@, self@.user_ptr as int, self@.len as int),
            ),
            r is Ok <==> writable_len(page_table@, self@.user_ptr as int, self@.len as int) == self@.len,
    {
        let ghost pt = page_table@;
        let ghost ptr = self@.user_ptr as int;
        let ghost mem0 = memory@;
        let ghost len = self.len as int;
        let mem_len = memory.len();
        let mut offset: usize = 0;
        let mut ok = true;
        while ok && offset < self.len
            invariant
                pt == page_table@,
                ptr == self.user_ptr.0,
                len == self.len,
                value@.len() == len,
                frames_within(pt, mem0.len() as int),
                mem0.len() == mem_len,
                mem0 == old(memory)@,
                ptr + self.len <= usize::MAX + 1,
                offset <= self.len,
                memory@.len() == mem0.len(),
                forall|q: int| 0 <= q < offset ==> #[trigger] can_write_at(pt, ptr + q),
                memory@ == written(mem0, pt, ptr, value@, offset as int),
                !ok ==> offset < self.len && !can_write_at(pt, ptr + offset),
            decreases self.len - offset + if ok { 1int } else { 0int },
        {
            let start = self.user_ptr.0 + offset;
            let current_vpn = VirtAddr(start).floor();
            match page_table.translate(current_vpn) {
                Some(pte) if pte.is_valid() && pte.writable() && pte.exposed_to_user() => {
                    let current_ppn = pte.ppn();
                    let page_offset = VirtAddr(start).page_offset();
                    let copy_len = if PAGE_SIZE - page_offset < self.len - offset {
                        PAGE_SIZE - page_offset
                    } else {
                        self.len - offset
                    };
                    proof {
                        assert(pt.entries.contains_key(current_vpn));
                        vstd::arithmetic::div_mod::lemma_mod_bound(start as int, (PAGE_SIZE as int));
                    }
                    let base = current_ppn * PAGE_SIZE + page_offset;
                    let mut k: usize = 0;
                    while k < copy_len
                        invariant
                            pt == page_table@,
                            ptr == self.user_ptr.0,
                            len == self.len,
                            value@.len() == len,
                            frames_within(pt, mem0.len() as int),
                            mem0.len() == mem_len,
                            ptr + self.len <= usize::MAX + 1,
                            offset < self.len,
                            offset + copy_len <= self.len,
                            start == ptr + offset,
                            page_offset == start % PAGE_SIZE,
                            page_offset + copy_len <= PAGE_SIZE,
                            current_vpn == page_of(start as int),
                            pt.entries.contains_key(current_vpn),
                            pt.entries[current_vpn] == pte,
                            user_writable(pte),
                            base == pte.ppn * PAGE_SIZE + page_offset,
                            (pte.ppn + 1) * PAGE_SIZE <= mem0.len(),
                            k <= copy_len,
                            memory@.len() == mem0.len(),
                            forall|q: int| 0 <= q < offset + k ==> #[trigger] can_write_at(pt, ptr + q),
                            memory@ == written(mem0, pt, ptr, value@, offset + k),
                        decreases copy_len - k,
                    {
                        proof {
                            lemma_same_page(start as int, k as int);
                            assert(ptr + (offset + k) == start + k);
                            assert(can_write_at(pt, ptr + (offset + k)));
                            assert(phys_addr(pt, ptr + (offset + k)) == base + k);
                        }
                        memory.write_byte(base + k, value[offset + k]);
                        proof {
                            assert(ptr + (offset + k + 1) - 1 == ptr + (offset + k));
                        }
                        k = k + 1;
                    }
                    offset = offset + copy_len;
                },
                _ => {
                    ok = false;
                },
            }
        }
        if !ok {
            proof {
                lemma_writable_run_skip(pt, ptr, len, offset as int);
                assert(writable_run(pt, ptr, len, offset as int) == offset);
            }
            return Err(());
        }
        proof {
            lemma_writable_run_skip(pt, ptr, len, len);
        }
        Ok(())
    }
}

} // verus!
