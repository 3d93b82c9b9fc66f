//! Regions of virtual memory and where they are mapped to.
use vstd::prelude::*;

use crate::addr::PhysAddr;
use crate::flags::MemFlags;

verus! {

/// How the pages of a region are laid out in physical memory.
#[derive(Debug, Copy, Clone)]
pub enum Mapper {
    /// Each address lies the same distance below its virtual address, modulo the address space.
    Offset(usize),
    /// Every page goes to the same physical address.
    Fixed(PhysAddr),
}

impl Mapper {
    pub open spec fn spec_map_fn(&self, vaddr: usize) -> PhysAddr {
        match *self {
            Mapper::Offset(offset) => vstd::wrapping::usize_specs::wrapping_sub(vaddr, offset),
            Mapper::Fixed(paddr) => paddr,
        }
    }

    /// The physical address that `vaddr` is mapped to.
    #[verifier::when_used_as_spec(spec_map_fn)]
    pub fn map_fn(&self, vaddr: usize) -> (r: PhysAddr)
        ensures
            r == self.map_fn(vaddr),
    {
        match *self {
            Mapper::Offset(offset) => vaddr.wrapping_sub(offset),
            Mapper::Fixed(paddr) => paddr,
        }
    }
}

/// A stretch of virtual memory, its flags, and where it is mapped to.
#[derive(Debug, Copy, Clone)]
pub struct MemoryRegion<VA> {
    pub start: VA,
    pub size: usize,
    pub flags: MemFlags,
    pub mapper: Mapper,
}

} // verus!
