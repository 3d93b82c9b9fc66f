//! Physical and virtual addresses.
use vstd::prelude::*;

verus! {

pub type PhysAddr = usize;

pub type VirtAddr = usize;

/// Bytes in a base page.
pub const PAGE_SIZE: usize = 0x1000;

/// An address that a page table translates: a number under whatever name the user of the table
/// gives it.
pub trait VirtAddress: Copy {
    /// The number that the address is.
    spec fn number(self) -> usize;

    fn from_usize(number: usize) -> (r: Self)
        ensures
            r.number() == number,
    ;

    fn into_usize(self) -> (r: usize)
        ensures
            r == self.number(),
        opens_invariants none
    ;
}

impl VirtAddress for usize {
    open spec fn number(self) -> usize {
        self
    }

    fn from_usize(number: usize) -> (r: Self) {
        number
    }

    fn into_usize(self) -> (r: usize) {
        self
    }
}

/// Whether an address or a length is a whole number of base pages.
pub fn is_aligned(addr: usize) -> (r: bool)
    ensures
        r == (addr % PAGE_SIZE == 0),
{
    addr % PAGE_SIZE == 0
}

} // verus!
