//! Page table entries.
use std::fmt::Debug;
use vstd::prelude::*;

use crate::addr::PhysAddr;
use crate::flags::MemFlags;

verus! {

/// An entry of a page table, in the format of the machine.
///
/// A format says what each of its entries means and what each change of an entry makes of it.
/// The `law_` functions are what the page tables rely on of every format.
pub trait GenericPTE: Debug + Clone {
    /// The entry that is all zero.
    spec fn zero() -> Self;

    /// The physical address that the entry maps or, in an intermediate entry, points to.
    spec fn target(self) -> PhysAddr;

    /// The flags that the entry holds.
    spec fn rights(self) -> MemFlags;

    spec fn present(self) -> bool;

    spec fn huge(self) -> bool;

    /// The entry after its address was set.
    spec fn with_addr(self, paddr: PhysAddr) -> Self;

    /// The entry after its flags were set.
    spec fn with_flags(self, flags: MemFlags) -> Self;

    /// The entry after it was made to point to a table.
    spec fn with_table(self, paddr: PhysAddr) -> Self;

    /// The format has room for this address.
    spec fn holds_addr(paddr: PhysAddr) -> bool;

    /// What is left of a set of flags once an entry holds it.
    spec fn kept_flags(flags: MemFlags) -> MemFlags;

    /// The flags mark an entry as one that maps memory.
    spec fn terminal_flags(flags: MemFlags) -> bool;

    /// Returns the physical address mapped by this entry.
    fn addr(&self) -> (r: PhysAddr)
        ensures
            r == self.target(),
    ;

    /// Returns the flags of this entry.
    fn flags(&self) -> (r: MemFlags)
        ensures
            r == self.rights(),
    ;

    /// Returns whether this entry is zero.
    fn is_unused(&self) -> (r: bool)
        ensures
            r == (*self == Self::zero()),
    ;

    /// Returns whether this entry flag indicates present.
    fn is_present(&self) -> (r: bool)
        ensures
            r == self.present(),
    ;

    /// Returns whether this entry maps to a huge frame.
    fn is_huge(&self) -> (r: bool)
        ensures
            r == self.huge(),
    ;

    /// Set physical address for terminal entries.
    fn set_addr(&mut self, paddr: PhysAddr)
        ensures
            *final(self) == old(self).with_addr(paddr),
    ;

    /// Set flags for terminal entries.
    fn set_flags(&mut self, flags: MemFlags)
        ensures
            *final(self) == old(self).with_flags(flags),
    ;

    /// Set physical address and flags for intermediate table entries.
    fn set_table(&mut self, paddr: PhysAddr)
        ensures
            *final(self) == old(self).with_table(paddr),
    ;

    /// Set this entry to zero.
    fn clear(&mut self)
        ensures
            *final(self) == Self::zero(),
    ;

    /// A zero entry maps nothing.
    proof fn law_zero()
        ensures
            !Self::zero().present(),
            !Self::zero().huge(),
    ;

    /// An address that was set is read back, and setting it leaves the flags alone.
    proof fn law_set_addr(self, paddr: PhysAddr)
        ensures
            Self::holds_addr(paddr) ==> self.with_addr(paddr).target() == paddr,
            self.with_addr(paddr).rights() == self.rights(),
    ;

    /// Flags that were set are read back as far as an entry keeps them, setting them leaves the
    /// address alone, and flags of mapped memory make a terminal entry.
    proof fn law_set_flags(self, flags: MemFlags)
        ensures
            self.with_flags(flags).rights() == Self::kept_flags(flags),
            self.with_flags(flags).target() == self.target(),
            Self::terminal_flags(flags) ==> self.with_flags(flags).present() && self.with_flags(
                flags,
            ).huge(),
    ;

    /// An entry that was made to point to a table does so.
    proof fn law_set_table(self, paddr: PhysAddr)
        requires
            Self::holds_addr(paddr),
        ensures
            self.with_table(paddr).present(),
            !self.with_table(paddr).huge(),
            self.with_table(paddr).target() == paddr,
    ;

    /// A clone of an entry is the same entry.
    proof fn law_clone(a: Self, b: Self)
        requires
            cloned(a, b),
        ensures
            a == b,
    ;
}

} // verus!
