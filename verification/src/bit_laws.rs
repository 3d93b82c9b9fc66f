//! What flags, sizes, addresses and entries are, bit by bit and number by number.
use vstd::prelude::*;

use crate::addr::{PhysAddr, VirtAddress, PAGE_SIZE};
use crate::change::page_flags;
use crate::entry::GenericPTE;
use crate::error::{HvError, HvErrorNum, PagingError};
use crate::flags::MemFlags;
use crate::memory::ROOT_FRAMES;
use crate::page::{PageSize, ENTRY_COUNT};
use crate::region::Mapper;
use crate::sv39::Sv39Entry;

verus! {

/// A set of flags contains a mask if and only if every bit of the mask is set in it.
pub proof fn law_contains(flags: MemFlags, mask: u64)
    ensures
        flags.contains(mask) <==> forall|i: u64|
            i < 64 && #[trigger] ((mask >> i) & 1) == 1 ==> (flags.bits >> i) & 1 == 1,
{
    let bits = flags.bits;
    if bits & mask == mask {
        assert forall|i: u64| i < 64 && #[trigger] ((mask >> i) & 1) == 1 implies (bits >> i) & 1
            == 1 by {
            assert((bits >> i) & 1 == 1) by (bit_vector)
                requires
                    bits & mask == mask,
                    (mask >> i) & 1 == 1,
            ;
        }
    }
    if forall|i: u64| i < 64 && #[trigger] ((mask >> i) & 1) == 1 ==> (bits >> i) & 1 == 1 {
        lemma_all_bits(bits, mask, 0);
    }
}

/// From bit `n` on, every bit of the mask is set.
proof fn lemma_all_bits(bits: u64, mask: u64, n: u64)
    requires
        n <= 64,
        forall|i: u64| i < 64 && #[trigger] ((mask >> i) & 1) == 1 ==> (bits >> i) & 1 == 1,
    ensures
        n < 64 ==> ((bits & mask) >> n) == mask >> n,
        n == 0 ==> bits & mask == mask,
    decreases 64 - n,
{
    if n < 64 {
        lemma_all_bits(bits, mask, (n + 1) as u64);
        assert((mask >> n) & 1 == 1 ==> (bits >> n) & 1 == 1);
        if n == 63 {
            assert(((bits & mask) >> 63) == mask >> 63) by (bit_vector)
                requires
                    (mask >> 63) & 1 == 1 ==> (bits >> 63) & 1 == 1,
            ;
        } else {
            let next = (n + 1) as u64;
            assert(((bits & mask) >> n) == mask >> n) by (bit_vector)
                requires
                    n < 63,
                    next == n + 1,
                    ((bits & mask) >> next) == mask >> next,
                    (mask >> n) & 1 == 1 ==> (bits >> n) & 1 == 1,
            ;
        }
        assert((bits & mask) >> 0 == mask >> 0 ==> bits & mask == mask) by (bit_vector);
    }
}

/// What is left of a set of flags without a mask is every bit that is not in the mask.
pub proof fn law_without(flags: MemFlags, mask: u64, i: u64)
    requires
        i < 64,
    ensures
        (flags.without(mask).bits >> i) & 1 == 1 <==> (flags.bits >> i) & 1 == 1 && (mask >> i) & 1
            == 0,
{
    let bits = flags.bits;
    assert(((bits & !mask) >> i) & 1 == 1 <==> (bits >> i) & 1 == 1 && (mask >> i) & 1 == 0)
        by (bit_vector)
        requires
            i < 64,
    ;
}

/// Every flag has a bit of its own.
pub proof fn law_flag_bits()
    ensures
        MemFlags::READ == 0x1,
        MemFlags::WRITE == 0x2,
        MemFlags::EXECUTE == 0x4,
        MemFlags::NO_HUGEPAGES == 0x100,
        MemFlags::USER == 0x200,
{
}

/// A page of any size is mapped with the flags of its region; what a huge page does not keep is the
/// flag that rules huge pages out.
pub proof fn law_page_flags(size: PageSize, flags: MemFlags)
    ensures
        page_flags(size, flags).bits & !0x100u64 == flags.bits & !0x100u64,
        size == PageSize::Size4K ==> page_flags(size, flags) == flags,
        size != PageSize::Size4K ==> page_flags(size, flags).bits & 0x100u64 == 0,
        flags.bits & 0x100u64 == 0 ==> page_flags(size, flags) == flags,
{
    let bits = flags.bits;
    assert((bits & !0x100u64) & !0x100u64 == bits & !0x100u64 && (bits & !0x100u64) & 0x100u64 == 0
        && (bits & 0x100u64 == 0 ==> bits & !0x100u64 == bits)) by (bit_vector);
}

/// The sizes of page, and which of them are huge.
pub proof fn law_page_sizes()
    ensures
        PageSize::Size4K.bytes() == 0x1000,
        PageSize::Size2M.bytes() == 512 * 0x1000,
        PageSize::Size1G.bytes() == 512 * 512 * 0x1000,
{
}

/// A region at a constant distance maps every address to one that lies this distance below it, and
/// a region that goes to one place maps every address there.
pub proof fn law_mapper(mapper: Mapper, vaddr: usize)
    ensures
        match mapper {
            Mapper::Offset(offset) => mapper.map_fn(vaddr) == if vaddr >= offset {
                vaddr - offset
            } else {
                vaddr - offset + usize::MAX + 1
            },
            Mapper::Fixed(paddr) => mapper.map_fn(vaddr) == paddr,
        },
{
}

/// An address that is a number is that number.
pub proof fn law_number(vaddr: usize)
    ensures
        vaddr.number() == vaddr,
{
}

/// An error of the hypervisor reports one paging error only, and running out of memory has its own
/// number.
pub proof fn law_reports(err: HvError, a: PagingError, b: PagingError)
    requires
        err.reports(a),
        err.reports(b),
    ensures
        a == b,
        err.num == HvErrorNum::ENOMEM <==> a == PagingError::NoMemory,
        a == PagingError::NoMemory <==> err.msg is None,
{
    reveal_strlit("NotMapped");
    reveal_strlit("AlreadyMapped");
    reveal_strlit("MappedToHugePage");
    if a != b && a != PagingError::NoMemory && b != PagingError::NoMemory {
        assert("NotMapped"@.len() != "AlreadyMapped"@.len());
        assert("NotMapped"@.len() != "MappedToHugePage"@.len());
        assert("AlreadyMapped"@.len() != "MappedToHugePage"@.len());
    }
}

/// An Sv39 entry whose address and flags were set maps that frame with those rights, whatever it
/// held before: the frame number starts at bit 10, and the rights are the bits from 1 on.
pub proof fn law_sv39_page(e: Sv39Entry, paddr: PhysAddr, flags: MemFlags)
    requires
        paddr % 0x1000 == 0,
        (paddr as u64) < 0x100_0000_0000_0000,
    ensures
        ({
            let set = e.with_addr(paddr).with_flags(flags);
            &&& set.bits >> 10 == paddr as u64 >> 12
            &&& set.bits & 0x1 == 0x1
            &&& (set.bits >> 1) & 0x7 == flags.bits & 0x7
            &&& (set.bits >> 4) & 0x1 == (flags.bits >> 9) & 0x1
            &&& set.bits & 0x3e0 == 0xc0
            &&& set.target() == paddr
            &&& set.rights().bits == flags.bits & 0x207
            &&& set.present()
            &&& set.huge() <==> flags.bits & 0x7 != 0
            &&& set != Sv39Entry::zero()
        }),
{
    let old_bits = e.bits;
    let wide = paddr as u64;
    let f = flags.bits;
    let frame = (wide >> 2) & 0x3f_ffff_ffff_fc00;
    let first = (old_bits & !0x3f_ffff_ffff_fc00) | frame;
    let bits = (first & 0x3f_ffff_ffff_fc00) | (((f & 0x7) << 1) | ((f & 0x200) >> 5) | 0xc0 | 0x1);
    assert(bits >> 10 == wide >> 12 && bits & 0x1 == 0x1 && (bits >> 1) & 0x7 == f & 0x7 && (bits
        >> 4) & 0x1 == (f >> 9) & 0x1 && bits & 0x3e0 == 0xc0 && (bits & 0xe != 0 <==> f & 0x7 != 0) && bits != 0)
        by (bit_vector)
        requires
            wide % 0x1000 == 0,
            wide < 0x100_0000_0000_0000,
            frame == (wide >> 2) & 0x3f_ffff_ffff_fc00,
            first == (old_bits & !0x3f_ffff_ffff_fc00) | frame,
            bits == (first & 0x3f_ffff_ffff_fc00) | (((f & 0x7) << 1) | ((f & 0x200) >> 5) | 0xc0
                | 0x1),
    ;
    e.law_set_addr(paddr);
    e.with_addr(paddr).law_set_flags(flags);
    assert(bits & 0x1 == 0x1 ==> bits & 0x1 != 0) by (bit_vector);
}

/// Setting the flags of an Sv39 entry never leaves it unused.
pub proof fn law_sv39_used(e: Sv39Entry, flags: MemFlags)
    ensures
        e.with_flags(flags) != Sv39Entry::zero(),
        e.with_flags(flags).huge() <==> flags.bits & 0x7 != 0,
{
    let old_bits = e.bits;
    let f = flags.bits;
    assert({
        let bits = (old_bits & 0x3f_ffff_ffff_fc00) | (((f & 0x7) << 1) | ((f & 0x200) >> 5) | 0xc0
            | 0x1);
        bits != 0 && (bits & 0xe != 0 <==> f & 0x7 != 0)
    }) by (bit_vector);
}

/// An Sv39 entry that was made to point to a table is valid, has no rights, and holds the table's
/// frame number from bit 10 on.
pub proof fn law_sv39_table(e: Sv39Entry, paddr: PhysAddr)
    requires
        paddr % 0x1000 == 0,
        (paddr as u64) < 0x100_0000_0000_0000,
    ensures
        e.with_table(paddr).bits >> 10 == paddr as u64 >> 12,
        e.with_table(paddr).bits & 0x3ff == 0x1,
{
    let wide = paddr as u64;
    assert({
        let bits = ((wide >> 2) & 0x3f_ffff_ffff_fc00) | 0x1;
        bits >> 10 == wide >> 12 && bits & 0x3ff == 0x1
    }) by (bit_vector)
        requires
            wide % 0x1000 == 0,
            wide < 0x100_0000_0000_0000,
    ;
}

/// What the bits of an Sv39 entry say: bit 0 that it is valid, bits 1 to 3 that it maps memory, and
/// with which rights, bit 4 that the user may use it, and the bits from 10 on in which frame.
pub proof fn law_sv39_bits(e: Sv39Entry)
    ensures
        e == Sv39Entry::zero() <==> e.bits == 0,
        e.present() <==> e.bits & 0x1 == 0x1,
        e.huge() <==> e.bits & 0x2 == 0x2 || e.bits & 0x4 == 0x4 || e.bits & 0x8 == 0x8,
        usize::BITS == 64 ==> e.target() as u64 >> 12 == (e.bits >> 10) & 0xfff_ffff_ffff,
        usize::BITS == 64 ==> e.target() as u64 & 0xfff == 0,
        e.rights().bits & 0x7 == (e.bits >> 1) & 0x7,
        (e.rights().bits >> 9) & 0x1 == (e.bits >> 4) & 0x1,
        e.rights().bits & !0x207u64 == 0,
{
    let bits = e.bits;
    assert((bits & 0x1 != 0 <==> bits & 0x1 == 0x1) && (bits & 0xe != 0 <==> bits & 0x2 == 0x2
        || bits & 0x4 == 0x4 || bits & 0x8 == 0x8)) by (bit_vector);
    assert({
        let to = (bits & 0x3f_ffff_ffff_fc00) << 2;
        to >> 12 == (bits >> 10) & 0xfff_ffff_ffff && to & 0xfff == 0
    }) by (bit_vector);
    assert({
        let rights = ((bits >> 1) & 0x7) | ((bits & 0x10) << 5);
        rights & 0x7 == (bits >> 1) & 0x7 && (rights >> 9) & 0x1 == (bits >> 4) & 0x1 && rights
            & !0x207u64 == 0
    }) by (bit_vector);
}

/// Setting the address of an Sv39 entry sets its frame number, as far as there is room for it, and
/// nothing else; setting its flags leaves the frame number alone and sets the rest.
pub proof fn law_sv39_set(e: Sv39Entry, paddr: PhysAddr, flags: MemFlags)
    ensures
        (e.with_addr(paddr).bits >> 10) & 0xfff_ffff_ffff == (paddr as u64 >> 12) & 0xfff_ffff_ffff,
        e.with_addr(paddr).bits & 0xffc0_0000_0000_03ff == e.bits & 0xffc0_0000_0000_03ff,
        (e.with_flags(flags).bits >> 10) == (e.bits >> 10) & 0xfff_ffff_ffff,
        e.with_flags(flags).bits & 0x3ff == ((flags.bits & 0x7) << 1) | ((flags.bits & 0x200) >> 5)
            | 0xc1,
{
    let bits = e.bits;
    let wide = paddr as u64;
    let f = flags.bits;
    assert({
        let set = (bits & !0x3f_ffff_ffff_fc00) | ((wide >> 2) & 0x3f_ffff_ffff_fc00);
        (set >> 10) & 0xfff_ffff_ffff == (wide >> 12) & 0xfff_ffff_ffff && set
            & 0xffc0_0000_0000_03ff == bits & 0xffc0_0000_0000_03ff
    }) by (bit_vector);
    assert({
        let set = (bits & 0x3f_ffff_ffff_fc00) | (((f & 0x7) << 1) | ((f & 0x200) >> 5) | 0xc0
            | 0x1);
        set >> 10 == (bits >> 10) & 0xfff_ffff_ffff && set & 0x3ff == ((f & 0x7) << 1) | ((f
            & 0x200) >> 5) | 0xc1
    }) by (bit_vector);
}

/// What the Sv39 format has room for, what it keeps of a set of flags, and which flags make a page.
pub proof fn law_sv39_format(paddr: PhysAddr, flags: MemFlags)
    ensures
        Sv39Entry::holds_addr(paddr) <==> paddr % 0x1000 == 0 && paddr < 0x100_0000_0000_0000,
        Sv39Entry::kept_flags(flags).bits == flags.bits & 0x207,
        Sv39Entry::terminal_flags(flags) <==> flags.bits & 0x7 != 0,
{
}

/// The numbers that everything is made of.
pub proof fn law_numbers()
    ensures
        PAGE_SIZE == 0x1000,
        ENTRY_COUNT == 512,
        ROOT_FRAMES == 4,
{
}

/// How each paging error is reported, word for word.
pub proof fn law_report_words(err: HvError)
    ensures
        err.reports(PagingError::NoMemory) <==> err.num == HvErrorNum::ENOMEM && err.msg is None,
        err.reports(PagingError::NotMapped) <==> err.num == HvErrorNum::EFAULT && (err.msg matches Some(
            msg,
        ) && msg@ == "NotMapped"@),
        err.reports(PagingError::AlreadyMapped) <==> err.num == HvErrorNum::EFAULT && (
        err.msg matches Some(msg) && msg@ == "AlreadyMapped"@),
        err.reports(PagingError::MappedToHugePage) <==> err.num == HvErrorNum::EFAULT && (
        err.msg matches Some(msg) && msg@ == "MappedToHugePage"@),
{
}

} // verus!
