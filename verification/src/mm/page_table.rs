//! Page tables, as maps from virtual page numbers to entries, and the
//! physical memory that their frames live in.
use std::collections::BTreeMap;
use vstd::prelude::*;
use crate::mm::address::PAGE_SIZE;

verus! {

/// The entry is valid.
pub const PTE_V: u8 = 1u8;
/// The page may be read.
pub const PTE_R: u8 = 2u8;
/// The page may be written.
pub const PTE_W: u8 = 4u8;
/// The page may be executed.
pub const PTE_X: u8 = 8u8;
/// The page may be reached from user mode.
pub const PTE_U: u8 = 16u8;

/// Whether `flags` holds the bit `bit`.
pub open spec fn has_flag(flags: u8, bit: u8) -> bool {
    flags & bit != 0
}

/// A page table entry: the physical page number of the frame, and its flags.
#[derive(Clone, Copy)]
pub struct PageTableEntry {
    pub ppn: usize,
    pub flags: u8,
}

/// A user-mode load may go through the entry.
pub open spec fn user_readable(e: PageTableEntry) -> bool {
    has_flag(e.flags, PTE_V) && has_flag(e.flags, PTE_R) && has_flag(e.flags, PTE_U)
}

/// A user-mode store may go through the entry.
pub open spec fn user_writable(e: PageTableEntry) -> bool {
    has_flag(e.flags, PTE_V) && has_flag(e.flags, PTE_W) && has_flag(e.flags, PTE_U)
}

impl PageTableEntry {
    pub fn new(ppn: usize, flags: u8) -> (e: Self)
        ensures
            e.ppn == ppn,
            e.flags == flags,
    {
        PageTableEntry { ppn, flags }
    }

    pub fn ppn(&self) -> (ppn: usize)
        ensures
            ppn == self.ppn,
    {
        self.ppn
    }

    pub fn is_valid(&self) -> (b: bool)
        ensures
            b == has_flag(self.flags, PTE_V),
    {
        self.flags & PTE_V != 0
    }

    pub fn readable(&self) -> (b: bool)
        ensures
            b == has_flag(self.flags, PTE_R),
    {
        self.flags & PTE_R != 0
    }

    pub fn writable(&self) -> (b: bool)
        ensures
            b == has_flag(self.flags, PTE_W),
    {
        self.flags & PTE_W != 0
    }

    pub fn executable(&self) -> (b: bool)
        ensures
            b == has_flag(self.flags, PTE_X),
    {
        self.flags & PTE_X != 0
    }

    pub fn exposed_to_user(&self) -> (b: bool)
        ensures
            b == has_flag(self.flags, PTE_U),
    {
        self.flags & PTE_U != 0
    }
}

/// What a page table holds: the token that names it, and its entries.
pub struct PageTableView {
    pub token: usize,
    pub entries: Map<usize, PageTableEntry>,
}

/// The page table of an address space: an entry for each mapped virtual page.
pub struct PageTable {
    token: usize,
    entries: BTreeMap<usize, PageTableEntry>,
}

impl View for PageTable {
    type V = PageTableView;

    closed spec fn view(&self) -> PageTableView {
        PageTableView { token: self.token, entries: self.entries@ }
    }
}

impl PageTable {
    /// An empty page table, named by `token`.
    pub fn new(token: usize) -> (pt: Self)
        ensures
            pt@.token == token,
            pt@.entries == Map::<usize, PageTableEntry>::empty(),
    {
        PageTable { token, entries: BTreeMap::new() }
    }

    /// The token that names the page table.
    pub fn token(&self) -> (token: usize)
        ensures
            token == self@.token,
    {
        self.token
    }

    /// Map virtual page `vpn` to frame `ppn` with `flags`.
    pub fn map(&mut self, vpn: usize, ppn: usize, flags: u8)
        ensures
            final(self)@.token == old(self)@.token,
            final(self)@.entries == old(self)@.entries.insert(vpn, PageTableEntry { ppn, flags }),
    {
        self.entries.insert(vpn, PageTableEntry::new(ppn, flags));
    }

    /// Remove the entry of virtual page `vpn`.
    pub fn unmap(&mut self, vpn: usize)
        ensures
            final(self)@.token == old(self)@.token,
            final(self)@.entries == old(self)@.entries.remove(vpn),
    {
        self.entries.remove(&vpn);
    }

    /// The entry of virtual page `vpn`, if there is one.
    pub fn translate(&self, vpn: usize) -> (e: Option<PageTableEntry>)
        ensures
            e == if self@.entries.contains_key(vpn) {
                Some(self@.entries[vpn])
            } else {
                None
            },
    {
        match self.entries.get(&vpn) {
            Some(e) => Some(*e),
            None => None,
        }
    }
}

/// Physical memory: a run of frames of `PAGE_SIZE` bytes each.
pub struct PhysMemory {
    bytes: Vec<u8>,
}

impl View for PhysMemory {
    type V = Seq<u8>;

    closed spec fn view(&self) -> Seq<u8> {
        self.bytes@
    }
}

impl PhysMemory {
    /// `frames` frames of zeros.
    pub fn new(frames: usize) -> (m: Self)
        requires
            frames * PAGE_SIZE <= usize::MAX,
        ensures
            m@ == Seq::new((frames * PAGE_SIZE) as nat, |i: int| 0u8),
    {
        let n = frames * PAGE_SIZE;
        let mut bytes: Vec<u8> = Vec::new();
        let mut i: usize = 0;
        while i < n
            invariant
                i <= n,
                bytes@ == Seq::new(i as nat, |k: int| 0u8),
            decreases n - i,
        {
            bytes.push(0);
            i = i + 1;
        }
        PhysMemory { bytes }
    }

    /// The size of the memory, in bytes.
    pub fn len(&self) -> (n: usize)
        ensures
            n == self@.len(),
    {
        self.bytes.len()
    }

    /// The byte at physical address `pa`.
    pub fn read_byte(&self, pa: usize) -> (b: u8)
        requires
            pa < self@.len(),
        ensures
            b == self@[pa as int],
    {
        self.bytes[pa]
    }

    /// Store `b` at physical address `pa`.
    pub fn write_byte(&mut self, pa: usize, b: u8)
        requires
            pa < old(self)@.len(),
        ensures
            final(self)@ == old(self)@.update(pa as int, b),
    {
        self.bytes.set(pa, b);
    }
}

} // verus!
