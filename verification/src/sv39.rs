//! The entry format of RISC-V Sv39.
use vstd::prelude::*;

use crate::addr::PhysAddr;
use crate::entry::GenericPTE;
use crate::flags::MemFlags;

verus! {

/// The bits of an entry that hold its frame number.
pub const FRAME_BITS: u64 = 0x3f_ffff_ffff_fc00;

/// The bit of an entry that marks it as valid.
pub const VALID: u64 = 0x1;

/// The bits of an entry that make it a terminal one: readable, writable, executable.
pub const TERMINAL_BITS: u64 = 0xe;

/// The bits of an entry that say how its page was used.
pub const USED_BITS: u64 = 0xc0;

/// An entry of a page table as RISC-V Sv39 lays it out: a frame number above the rights and marks
/// of the page.
#[derive(Debug, Copy, Clone, PartialEq, Eq, Structural)]
pub struct Sv39Entry {
    pub bits: u64,
}

/// The frame number of an address, where an entry holds it.
pub open spec fn frame_bits(paddr: PhysAddr) -> u64 {
    (paddr as u64 >> 2) & FRAME_BITS
}

/// The rights and marks of an entry that maps memory with these flags.
pub open spec fn flag_bits(flags: MemFlags) -> u64 {
    ((flags.bits & 0x7) << 1) | ((flags.bits & MemFlags::USER) >> 5) | USED_BITS | VALID
}

impl GenericPTE for Sv39Entry {
    open spec fn zero() -> Self {
        Sv39Entry { bits: 0 }
    }

    open spec fn target(self) -> PhysAddr {
        ((self.bits & FRAME_BITS) << 2) as usize
    }

    open spec fn rights(self) -> MemFlags {
        MemFlags { bits: ((self.bits >> 1) & 0x7) | ((self.bits & 0x10) << 5) }
    }

    open spec fn present(self) -> bool {
        self.bits & VALID != 0
    }

    open spec fn huge(self) -> bool {
        self.bits & TERMINAL_BITS != 0
    }

    open spec fn with_addr(self, paddr: PhysAddr) -> Self {
        Sv39Entry { bits: (self.bits & !FRAME_BITS) | frame_bits(paddr) }
    }

    open spec fn with_flags(self, flags: MemFlags) -> Self {
        Sv39Entry { bits: (self.bits & FRAME_BITS) | flag_bits(flags) }
    }

    open spec fn with_table(self, paddr: PhysAddr) -> Self {
        Sv39Entry { bits: frame_bits(paddr) | VALID }
    }

    open spec fn holds_addr(paddr: PhysAddr) -> bool {
        paddr % 0x1000 == 0 && (paddr as u64) < 0x100_0000_0000_0000
    }

    open spec fn kept_flags(flags: MemFlags) -> MemFlags {
        MemFlags { bits: flags.bits & 0x207 }
    }

    open spec fn terminal_flags(flags: MemFlags) -> bool {
        flags.bits & 0x7 != 0
    }

    fn addr(&self) -> (r: PhysAddr) {
        ((self.bits & FRAME_BITS) << 2) as usize
    }

    fn flags(&self) -> (r: MemFlags) {
        MemFlags { bits: ((self.bits >> 1) & 0x7) | ((self.bits & 0x10) << 5) }
    }

    fn is_unused(&self) -> (r: bool) {
        self.bits == 0
    }

    fn is_present(&self) -> (r: bool) {
        self.bits & VALID != 0
    }

    fn is_huge(&self) -> (r: bool) {
        self.bits & TERMINAL_BITS != 0
    }

    fn set_addr(&mut self, paddr: PhysAddr) {
        self.bits = (self.bits & !FRAME_BITS) | ((paddr as u64 >> 2) & FRAME_BITS);
    }

    fn set_flags(&mut self, flags: MemFlags) {
        self.bits = (self.bits & FRAME_BITS) | (((flags.bits & 0x7) << 1) | ((flags.bits
            & MemFlags::USER) >> 5) | USED_BITS | VALID);
    }

    fn set_table(&mut self, paddr: PhysAddr) {
        self.bits = ((paddr as u64 >> 2) & FRAME_BITS) | VALID;
    }

    fn clear(&mut self) {
        self.bits = 0;
    }

    proof fn law_zero() {
        assert(0u64 & 0x1 == 0 && 0u64 & 0xe == 0) by (bit_vector);
    }

    proof fn law_set_addr(self, paddr: PhysAddr) {
        let old_bits = self.bits;
        let wide = paddr as u64;
        let frame = (wide >> 2) & 0x3f_ffff_ffff_fc00;
        let bits = (old_bits & !0x3f_ffff_ffff_fc00) | frame;
        assert(wide % 0x1000 == 0 && wide < 0x100_0000_0000_0000 ==> (bits & 0x3f_ffff_ffff_fc00)
            << 2 == wide) by (bit_vector)
            requires
                frame == (wide >> 2) & 0x3f_ffff_ffff_fc00,
                bits == (old_bits & !0x3f_ffff_ffff_fc00) | frame,
        ;
        assert((bits >> 1) & 0x7 == (old_bits >> 1) & 0x7 && bits & 0x10 == old_bits & 0x10)
            by (bit_vector)
            requires
                frame == (wide >> 2) & 0x3f_ffff_ffff_fc00,
                bits == (old_bits & !0x3f_ffff_ffff_fc00) | frame,
        ;
    }

    proof fn law_set_flags(self, flags: MemFlags) {
        let old_bits = self.bits;
        let f = flags.bits;
        let bits = (old_bits & 0x3f_ffff_ffff_fc00) | (((f & 0x7) << 1) | ((f & 0x200) >> 5) | 0xc0
            | 0x1);
        assert(((bits >> 1) & 0x7) | ((bits & 0x10) << 5) == f & 0x207) by (bit_vector)
            requires
                bits == (old_bits & 0x3f_ffff_ffff_fc00) | (((f & 0x7) << 1) | ((f & 0x200) >> 5)
                    | 0xc0 | 0x1),
        ;
        assert(bits & 0x3f_ffff_ffff_fc00 == old_bits & 0x3f_ffff_ffff_fc00 && bits & 0x1 != 0 && (f
            & 0x7 != 0 ==> bits & 0xe != 0)) by (bit_vector)
            requires
                bits == (old_bits & 0x3f_ffff_ffff_fc00) | (((f & 0x7) << 1) | ((f & 0x200) >> 5)
                    | 0xc0 | 0x1),
        ;
    }

    proof fn law_set_table(self, paddr: PhysAddr) {
        let wide = paddr as u64;
        let bits = ((wide >> 2) & 0x3f_ffff_ffff_fc00) | 0x1;
        assert(bits & 0x1 != 0 && bits & 0xe == 0 && (bits & 0x3f_ffff_ffff_fc00) << 2 == wide)
            by (bit_vector)
            requires
                wide % 0x1000 == 0,
                wide < 0x100_0000_0000_0000,
                bits == ((wide >> 2) & 0x3f_ffff_ffff_fc00) | 0x1,
        ;
    }

    proof fn law_clone(a: Self, b: Self) {
    }
}

} // verus!
