//! Page sizes, pages, and the parts of a virtual address.
use vstd::prelude::*;

use crate::addr::VirtAddress;

verus! {

/// Number of entries of a table.
pub const ENTRY_COUNT: usize = 512;

/// The sizes of page that a table of three levels maps.
#[derive(Debug, Copy, Clone, Eq, PartialEq, Structural)]
pub enum PageSize {
    Size4K,
    Size2M,
    Size1G,
}

/// A page of the virtual address space.
#[derive(Debug, Copy, Clone)]
pub struct Page<VA> {
    pub vaddr: VA,
    pub size: PageSize,
}

impl PageSize {
    /// Bytes in a page of this size.
    pub open spec fn spec_bytes(self) -> usize {
        match self {
            PageSize::Size4K => 0x1000,
            PageSize::Size2M => 0x20_0000,
            PageSize::Size1G => 0x4000_0000,
        }
    }

    /// Bytes in a page of this size.
    #[verifier::when_used_as_spec(spec_bytes)]
    pub fn bytes(self) -> (r: usize)
        ensures
            r == self.bytes(),
    {
        match self {
            PageSize::Size4K => 0x1000,
            PageSize::Size2M => 0x20_0000,
            PageSize::Size1G => 0x4000_0000,
        }
    }

    /// Whether a page of this size can start at `addr`.
    pub fn is_aligned(self, addr: usize) -> (r: bool)
        ensures
            r == (addr % self.bytes() == 0),
    {
        self.page_offset(addr) == 0
    }

    /// The start of the page of this size that holds `addr`.
    pub fn align_down(self, addr: usize) -> (r: usize)
        ensures
            r == addr - addr % self.bytes(),
            r % self.bytes() == 0,
            r <= addr < r + self.bytes(),
    {
        assert(addr & !0xfffusize == addr - addr % 0x1000usize) by (bit_vector);
        assert(addr & !0x1f_ffffusize == addr - addr % 0x20_0000usize) by (bit_vector);
        assert(addr & !0x3fff_ffffusize == addr - addr % 0x4000_0000usize) by (bit_vector);
        addr & !(self.bytes() - 1)
    }

    /// How far `addr` lies behind the start of its page of this size.
    pub fn page_offset(self, addr: usize) -> (r: usize)
        ensures
            r == addr % self.bytes(),
    {
        assert(addr & 0xfffusize == addr % 0x1000usize) by (bit_vector);
        assert(addr & 0x1f_ffffusize == addr % 0x20_0000usize) by (bit_vector);
        assert(addr & 0x3fff_ffffusize == addr % 0x4000_0000usize) by (bit_vector);
        addr & (self.bytes() - 1)
    }

    /// Whether the size is larger than the base page.
    pub fn is_huge(self) -> (r: bool)
        ensures
            r == (self.bytes() > PageSize::Size4K.bytes()),
    {
        matches!(self, PageSize::Size1G | PageSize::Size2M)
    }
}

impl<VA: VirtAddress> Page<VA> {
    /// The page of size `size` that starts at `vaddr`.
    pub fn new_aligned(vaddr: VA, size: PageSize) -> (r: Self)
        requires
            vaddr.number() % size.bytes() == 0,
        ensures
            r.vaddr == vaddr,
            r.size == size,
    {
        Page { vaddr, size }
    }
}

/// The entry of the root table that stands for `vaddr`.
pub open spec fn index3(vaddr: int) -> int {
    (vaddr / 0x4000_0000) % 512
}

/// The entry of a middle table that stands for `vaddr`.
pub open spec fn index2(vaddr: int) -> int {
    (vaddr / 0x20_0000) % 512
}

/// The entry of a last table that stands for `vaddr`.
pub open spec fn index1(vaddr: int) -> int {
    (vaddr / 0x1000) % 512
}

pub fn p3_index(vaddr: usize) -> (r: usize)
    ensures
        r == index3(vaddr as int),
        r < ENTRY_COUNT,
{
    assert((vaddr >> 30) & 511 == (vaddr / 0x4000_0000) % 512) by (bit_vector);
    (vaddr >> (12 + 18)) & (ENTRY_COUNT - 1)
}

pub fn p2_index(vaddr: usize) -> (r: usize)
    ensures
        r == index2(vaddr as int),
        r < ENTRY_COUNT,
{
    assert((vaddr >> 21) & 511 == (vaddr / 0x20_0000) % 512) by (bit_vector);
    (vaddr >> (12 + 9)) & (ENTRY_COUNT - 1)
}

pub fn p1_index(vaddr: usize) -> (r: usize)
    ensures
        r == index1(vaddr as int),
        r < ENTRY_COUNT,
{
    assert((vaddr >> 12) & 511 == (vaddr / 0x1000) % 512) by (bit_vector);
    (vaddr >> 12) & (ENTRY_COUNT - 1)
}

/// The number of base pages that `sz` bytes take up.
pub fn npages(sz: usize) -> (r: usize)
    ensures
        (r - 1) * 0x1000 < sz <= r * 0x1000,
{
    assert(sz & 0xfff == sz % 0x1000) by (bit_vector);
    assert(sz >> 12 == sz / 0x1000) by (bit_vector);
    if sz & 0xfff == 0 {
        sz >> 12
    } else {
        (sz >> 12) + 1
    }
}

} // verus!
