//! Access rights and other properties of mapped memory.
use vstd::prelude::*;

verus! {

/// A set of memory flags, one bit each.
#[derive(Debug, Copy, Clone, PartialEq, Eq, Structural)]
pub struct MemFlags {
    pub bits: u64,
}

impl MemFlags {
    pub const READ: u64 = 0x1;

    pub const WRITE: u64 = 0x2;

    pub const EXECUTE: u64 = 0x4;

    /// Map with base pages only.
    pub const NO_HUGEPAGES: u64 = 0x100;

    pub const USER: u64 = 0x200;

    pub open spec fn spec_contains(self, mask: u64) -> bool {
        self.bits & mask == mask
    }

    /// The flags of `self` that are not in `mask`.
    pub open spec fn without(self, mask: u64) -> MemFlags {
        MemFlags { bits: self.bits & !mask }
    }

    /// Whether every flag of `mask` is set.
    #[verifier::when_used_as_spec(spec_contains)]
    pub fn contains(self, mask: u64) -> (r: bool)
        ensures
            r == self.contains(mask),
    {
        self.bits & mask == mask
    }

    /// Clears every flag of `mask`.
    pub fn remove(&mut self, mask: u64)
        ensures
            *final(self) == old(self).without(mask),
    {
        self.bits = self.bits & !mask;
    }
}

} // verus!
