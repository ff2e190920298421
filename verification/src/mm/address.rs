//! Virtual addresses and pages.
use vstd::prelude::*;

verus! {

/// The size of a page, in bytes.
pub const PAGE_SIZE: usize = 4096;

/// A virtual address.
pub struct VirtAddr(pub usize);

impl VirtAddr {
    /// The number of the page that holds the address.
    pub fn floor(&self) -> (vpn: usize)
        ensures
            vpn == self.0 / PAGE_SIZE,
    {
        self.0 / PAGE_SIZE
    }

    /// The offset of the address within its page.
    pub fn page_offset(&self) -> (offset: usize)
        ensures
            offset == self.0 % PAGE_SIZE,
    {
        self.0 % PAGE_SIZE
    }

    /// Whether the address is the start of a page.
    pub fn aligned(&self) -> (b: bool)
        ensures
            b == (self.0 % PAGE_SIZE == 0),
    {
        self.page_offset() == 0
    }
}

} // verus!
