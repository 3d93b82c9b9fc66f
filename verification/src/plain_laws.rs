//! What the operations do, said of the entries of tables, of numbers and of bits alone.
use vstd::prelude::*;

use crate::addr::{PhysAddr, PAGE_SIZE};
use crate::bit_laws::{law_mapper, law_page_flags, law_sv39_used};
use crate::change::{maps_no_table, page_size_for};
use crate::entry::GenericPTE;
use crate::error::{PagingError, PagingResult};
use crate::flags::MemFlags;
use crate::laws::{law_update, lemma_map_step, lemma_unmap_step};
use crate::lemmas::lemma_same_page;
use crate::memory::{law_first_fit, Frame, Memory, ROOT_FRAMES};
use crate::model::{is_table, next_table, Slot};
use crate::page::{index1, index2, index3, PageSize};
use crate::region::Mapper;
use crate::region_laws::{law_map_run, law_unmap_run, region_entry};
use crate::spans::{lemma_page_start, lemma_smaller_unit, region_page};
use crate::sv39::Sv39Entry;
use crate::table::answers;
use crate::table_laws::law_map_grows;
use crate::unlocked::{all_kept, among, single_frames};

verus! {

/// How an address is translated: the root entry for its gigabyte decides if it is huge, else the
/// entry of the next table for its two megabytes if that is huge, else the entry of the last table
/// for its four kilobytes if it is used. An entry on the way that is neither huge nor present maps
/// nothing.
pub proof fn law_translate<PTE: GenericPTE>(m: Memory<PTE>, root: int, va: int)
    requires
        0 <= va,
    ensures
        ({
            let unmapped = Err::<(int, MemFlags, PageSize), PagingError>(PagingError::NotMapped);
            let e3 = m.tables[root][(va / 0x4000_0000) % 512];
            let e2 = m.tables[e3.target() as int][(va / 0x20_0000) % 512];
            let e1 = m.tables[e2.target() as int][(va / 0x1000) % 512];
            m.translate(root, va) == if e3.huge() {
                Ok((e3.target() + va % 0x4000_0000, e3.rights(), PageSize::Size1G))
            } else if !e3.present() {
                unmapped
            } else if e2.huge() {
                Ok((e2.target() + va % 0x20_0000, e2.rights(), PageSize::Size2M))
            } else if !e2.present() {
                unmapped
            } else if e1 == PTE::zero() {
                unmapped
            } else {
                Ok((e1.target() + va % 0x1000, e1.rights(), PageSize::Size4K))
            }
        }),
{
    reveal(Memory::leaf);
    PTE::law_zero();
}

/// Changing the mapping of a page sets the address and the flags of the entry that translates the
/// address, whatever they are, and touches nothing else. The size of the page is returned; where
/// there is no entry, nothing changes.
pub proof fn law_update_entry<PTE: GenericPTE>(
    m: Memory<PTE>,
    root: int,
    va: int,
    paddr: PhysAddr,
    flags: MemFlags,
)
    requires
        0 <= va,
    ensures
        ({
            let done = m.update_page(root, va, paddr, flags);
            let x3 = (va / 0x4000_0000) % 512;
            let x2 = (va / 0x20_0000) % 512;
            let x1 = (va / 0x1000) % 512;
            let e3 = m.tables[root][x3];
            let t2 = e3.target() as int;
            let e2 = m.tables[t2][x2];
            let t1 = e2.target() as int;
            let e1 = m.tables[t1][x1];
            &&& done.mem.allocated == m.allocated
            &&& if e3.huge() {
                &&& done.result == Ok::<PageSize, PagingError>(PageSize::Size1G)
                &&& done.mem.tables == m.tables.insert(
                    root,
                    m.tables[root].update(x3, e3.with_addr(paddr).with_flags(flags)),
                )
            } else if e3.present() && e2.huge() {
                &&& done.result == Ok::<PageSize, PagingError>(PageSize::Size2M)
                &&& done.mem.tables == m.tables.insert(
                    t2,
                    m.tables[t2].update(x2, e2.with_addr(paddr).with_flags(flags)),
                )
            } else if e3.present() && e2.present() {
                &&& done.result == Ok::<PageSize, PagingError>(PageSize::Size4K)
                &&& done.mem.tables == m.tables.insert(
                    t1,
                    m.tables[t1].update(x1, e1.with_addr(paddr).with_flags(flags)),
                )
            } else {
                &&& done.result == Err::<PageSize, PagingError>(PagingError::NotMapped)
                &&& done.mem.tables == m.tables
            }
        }),
{
}

/// A base page whose mapping was changed is translated to its new frame with its new rights,
/// whatever the flags are, as long as the format takes an entry with these flags for a used one.
pub proof fn law_update_base_page<PTE: GenericPTE>(
    m: Memory<PTE>,
    root: int,
    va: int,
    other: int,
    paddr: PhysAddr,
    flags: MemFlags,
)
    requires
        m.wf(),
        m.tree(root),
        0 <= va,
        0 <= other,
        (va % 0x80_0000_0000) / 0x1000 == (other % 0x80_0000_0000) / 0x1000,
        m.update_page(root, va, paddr, flags).result == Ok::<PageSize, PagingError>(
            PageSize::Size4K,
        ),
        forall|e: PTE| #[trigger] e.with_flags(flags) != PTE::zero(),
    ensures
        m.update_page(root, va, paddr, flags).mem.translate(root, other) matches Ok((to, rights, size))
            && {
            &&& size == PageSize::Size4K
            &&& rights == PTE::kept_flags(flags)
            &&& PTE::holds_addr(paddr) ==> to == paddr + other % 0x1000
        },
{
    law_update(m, root, va, paddr, flags);
    lemma_same_page(va, other);
    let after = m.update_page(root, va, paddr, flags).mem;
    law_update_entry(m, root, va, paddr, flags);
    law_translate(after, root, other);
    let (slot, _) = m.locate(root, va)->Ok_0;
    let e = m.at(slot);
    e.law_set_addr(paddr);
    e.with_addr(paddr).law_set_flags(flags);
    let i = index3(va);
    let j = index2(va);
    assert(m.has1(root, i, j));
    m.lemma_put1(root, i, j, index1(va), e.with_addr(paddr).with_flags(flags));
}

/// An Sv39 base page whose mapping was changed is translated to its new frame and has exactly the
/// new rights, none included.
pub proof fn law_update_sv39(
    m: Memory<Sv39Entry>,
    root: int,
    va: int,
    paddr: PhysAddr,
    flags: MemFlags,
)
    requires
        m.wf(),
        m.tree(root),
        0 <= va,
        paddr % 0x1000 == 0,
        (paddr as u64) < 0x100_0000_0000_0000,
        m.update_page(root, va, paddr, flags).result == Ok::<PageSize, PagingError>(
            PageSize::Size4K,
        ),
    ensures
        m.update_page(root, va, paddr, flags).mem.translate(root, va) == Ok::<
            (int, MemFlags, PageSize),
            PagingError,
        >((paddr + va % 0x1000, MemFlags { bits: flags.bits & 0x207 }, PageSize::Size4K)),
{
    assert forall|e: Sv39Entry| #[trigger] e.with_flags(flags) != Sv39Entry::zero() by {
        law_sv39_used(e, flags);
    }
    law_update_base_page(m, root, va, va, paddr, flags);
}

/// Where a region maps an address to: to the one place that it names, or to what lies a constant
/// distance below the address, modulo the address space.
pub open spec fn goes_to(mapper: Mapper, vaddr: int) -> int {
    match mapper {
        Mapper::Offset(offset) => if vaddr >= offset {
            vaddr - offset
        } else {
            vaddr - offset + usize::MAX + 1
        },
        Mapper::Fixed(paddr) => paddr as int,
    }
}

/// The address is translated by this entry, as that of a page of `unit` bytes: `va` goes as far
/// behind the start of the frame as it lies behind the start of its page, with the rights of the
/// entry. Nothing is said of an entry that the format takes for unused, or not for a huge page.
pub open spec fn by_page<PTE: GenericPTE>(
    m: Memory<PTE>,
    root: int,
    va: int,
    e: PTE,
    size: PageSize,
    unit: int,
) -> bool {
    e != PTE::zero() && (size == PageSize::Size4K || e.huge()) ==> m.translate(root, va) == Ok::<
        (int, MemFlags, PageSize),
        PagingError,
    >((e.target() + va % unit, e.rights(), size))
}

/// Mapping a region, address by address. Up to where mapping stopped, nothing was mapped before, and
/// each address is now translated by the largest page round it that lies in the region and whose
/// start goes to a multiple of its size; only base pages are used if the bit that rules huge pages
/// out is set. The entry is an unused one whose address was set to the frame, and whose flags were
/// set to those of the region. Every other address is translated as before.
pub proof fn law_map_address<PTE: GenericPTE>(
    m: Memory<PTE>,
    root: int,
    start: usize,
    len: usize,
    flags: MemFlags,
    mapper: Mapper,
    va: int,
)
    requires
        m.wf(),
        m.tree(root),
        start % PAGE_SIZE == 0,
        len % PAGE_SIZE == 0,
        start + len <= usize::MAX,
        maps_no_table::<PTE>(start as int, len as int, flags, mapper),
        0 <= va,
    ensures
        ({
            let done = m.map_run(root, start as int, len as int, flags, mapper);
            let stop = m.map_stop(root, start as int, len as int, flags, mapper);
            let after = done.mem;
            let end = start + len;
            let huge = flags.bits & 0x100 != 0x100;
            let g = va - va % 0x4000_0000;
            let h = va - va % 0x20_0000;
            let b = va - va % 0x1000;
            let giga = huge && start <= g && g + 0x4000_0000 <= end && goes_to(mapper, g)
                % 0x4000_0000 == 0;
            let mega = huge && start <= h && h + 0x20_0000 <= end && goes_to(mapper, h) % 0x20_0000
                == 0;
            &&& start <= stop <= end
            &&& done.result is Ok <==> stop == end
            &&& (va - start) % 0x80_0000_0000 >= stop - start ==> after.translate(root, va)
                == m.translate(root, va)
            &&& (va - start) % 0x80_0000_0000 < stop - start ==> m.translate(root, va) == Err::<
                (int, MemFlags, PageSize),
                PagingError,
            >(PagingError::NotMapped)
            &&& start <= va < stop ==> if giga {
                let e = PTE::zero().with_addr(goes_to(mapper, g) as usize).with_flags(flags);
                by_page(after, root, va, e, PageSize::Size1G, 0x4000_0000)
            } else if mega {
                let e = PTE::zero().with_addr(goes_to(mapper, h) as usize).with_flags(flags);
                by_page(after, root, va, e, PageSize::Size2M, 0x20_0000)
            } else {
                let frame = goes_to(mapper, b) - goes_to(mapper, b) % 0x1000;
                let e = PTE::zero().with_addr(frame as usize).with_flags(flags);
                by_page(after, root, va, e, PageSize::Size4K, 0x1000)
            }
        }),
{
    law_map_run(m, root, start, len, flags, mapper);
    let done = m.map_run(root, start as int, len as int, flags, mapper);
    let stop = m.map_stop(root, start as int, len as int, flags, mapper);
    let after = done.mem;
    assert(after.leaf(root, va) == after.leaf(root, va));
    assert(m.leaf(root, va) == m.leaf(root, va));
    if start <= va < stop {
        let size = region_page(start as int, len as int, flags, mapper, va);
        let e = region_entry::<PTE>(start as int, len as int, flags, mapper, va);
        let g = va - va % 0x4000_0000;
        let h = va - va % 0x20_0000;
        let b = va - va % 0x1000;
        law_page_flags(size, flags);
        let bits = flags.bits;
        assert(bits & 0x100 != 0x100 ==> bits & 0x100 == 0) by (bit_vector);
        law_mapper(mapper, b as usize);
        if g >= start {
            law_mapper(mapper, g as usize);
        }
        if h >= start {
            law_mapper(mapper, h as usize);
        }
    }
}

/// An address of a region that was mapped with rights has exactly the flags of the region that an
/// entry keeps, and goes to its frame, whatever the size of its page.
pub proof fn law_map_rights<PTE: GenericPTE>(
    m: Memory<PTE>,
    root: int,
    start: usize,
    len: usize,
    flags: MemFlags,
    mapper: Mapper,
    va: int,
)
    requires
        m.wf(),
        m.tree(root),
        start % PAGE_SIZE == 0,
        len % PAGE_SIZE == 0,
        start + len <= usize::MAX,
        maps_no_table::<PTE>(start as int, len as int, flags, mapper),
        start <= va < m.map_stop(root, start as int, len as int, flags, mapper),
        forall|e: PTE| #[trigger] e.with_flags(flags) != PTE::zero(),
        forall|e: PTE|
            flags.bits & 0x100 == 0 && len >= 0x20_0000 ==> (#[trigger] e.with_flags(flags)).huge(),
    ensures
        m.map_run(root, start as int, len as int, flags, mapper).mem.translate(root, va) matches Ok(
            (to, rights, size),
        ) && {
            &&& rights == PTE::kept_flags(flags)
            &&& flags.bits & 0x100 != 0 || len < 0x20_0000 ==> size == PageSize::Size4K
            &&& match size {
                PageSize::Size4K => {
                    let first = goes_to(mapper, va - va % 0x1000);
                    let frame = first - first % 0x1000;
                    &&& PTE::holds_addr(frame as usize) ==> to == frame + va % 0x1000
                    &&& start <= va - va % 0x1000
                },
                PageSize::Size2M => {
                    let frame = goes_to(mapper, va - va % 0x20_0000);
                    &&& PTE::holds_addr(frame as usize) ==> to == frame + va % 0x20_0000
                    &&& frame % 0x20_0000 == 0
                    &&& start <= va - va % 0x20_0000
                },
                PageSize::Size1G => {
                    let frame = goes_to(mapper, va - va % 0x4000_0000);
                    &&& PTE::holds_addr(frame as usize) ==> to == frame + va % 0x4000_0000
                    &&& frame % 0x4000_0000 == 0
                    &&& start <= va - va % 0x4000_0000
                },
            }
        },
{
    law_map_address(m, root, start, len, flags, mapper, va);
    assert(start <= va - va % 0x1000) by {
        lemma_page_start(va, PageSize::Size4K);
        assert(start % 0x1000 == 0 && start <= va);
    }
    let bits = flags.bits;
    assert(bits & 0x100 != 0x100 <==> bits & 0x100 == 0) by (bit_vector);
    let g = goes_to(mapper, va - va % 0x4000_0000);
    let h = goes_to(mapper, va - va % 0x20_0000);
    let b = goes_to(mapper, va - va % 0x1000);
    lemma_entry_set::<PTE>(g as usize, flags);
    lemma_entry_set::<PTE>(h as usize, flags);
    lemma_entry_set::<PTE>((b - b % 0x1000) as usize, flags);
    lemma_goes_to(mapper, va - va % 0x1000);
    lemma_goes_to(mapper, va - va % 0x20_0000);
    lemma_goes_to(mapper, va - va % 0x4000_0000);
}

/// A region maps addresses to addresses.
proof fn lemma_goes_to(mapper: Mapper, vaddr: int)
    ensures
        0 <= vaddr <= usize::MAX ==> 0 <= goes_to(mapper, vaddr) <= usize::MAX,
{
}

proof fn lemma_entry_set<PTE: GenericPTE>(paddr: PhysAddr, flags: MemFlags)
    ensures
        ({
            let e = PTE::zero().with_addr(paddr).with_flags(flags);
            &&& e.rights() == PTE::kept_flags(flags)
            &&& PTE::holds_addr(paddr) ==> e.target() == paddr
        }),
{
    PTE::zero().law_set_addr(paddr);
    PTE::zero().with_addr(paddr).law_set_flags(flags);
}

/// In Sv39, a region that was mapped has exactly the rights of its flags, one by one: to read, to
/// write, to execute, and for the user. Its addresses go to its frames.
pub proof fn law_map_sv39(
    m: Memory<Sv39Entry>,
    root: int,
    start: usize,
    len: usize,
    flags: MemFlags,
    offset: usize,
    va: int,
)
    requires
        m.wf(),
        m.tree(root),
        start % PAGE_SIZE == 0,
        len % PAGE_SIZE == 0,
        start + len <= usize::MAX,
        maps_no_table::<Sv39Entry>(start as int, len as int, flags, Mapper::Offset(offset)),
        start <= va < m.map_stop(root, start as int, len as int, flags, Mapper::Offset(offset)),
        flags.bits & 0x7 != 0 || flags.bits & 0x100 != 0 || len < 0x20_0000,
        offset % 0x1000 == 0,
        offset <= start,
        start + len - offset <= 0x100_0000_0000_0000,
    ensures
        m.map_run(root, start as int, len as int, flags, Mapper::Offset(offset)).mem.translate(
            root,
            va,
        ) matches Ok((to, rights, size)) && {
            &&& to == va - offset
            &&& rights.bits == flags.bits & 0x207
            &&& flags.bits & 0x100 != 0 ==> size == PageSize::Size4K
        },
{
    let mapper = Mapper::Offset(offset);
    assert forall|e: Sv39Entry|
        (#[trigger] e.with_flags(flags)) != Sv39Entry::zero() && (flags.bits & 0x7 != 0
            ==> e.with_flags(flags).huge()) by {
        law_sv39_used(e, flags);
    }
    law_map_rights(m, root, start, len, flags, mapper, va);
    assert(va < start + len) by {
        law_map_run(m, root, start, len, flags, mapper);
    }
    let after = m.map_run(root, start as int, len as int, flags, mapper).mem;
    if let Ok((_, _, size)) = after.translate(root, va) {
        let page = match size {
            PageSize::Size4K => va - va % 0x1000,
            PageSize::Size2M => va - va % 0x20_0000,
            PageSize::Size1G => va - va % 0x4000_0000,
        };
        let frame = page - offset;
        lemma_frame(va, offset as int, size);
        assert(goes_to(mapper, page) == frame);
        assert(frame % 0x1000 == 0);
        assert(0 <= frame < 0x100_0000_0000_0000);
        assert(Sv39Entry::holds_addr(frame as usize));
    }
}

/// A page that lies a whole number of base pages above its frame.
proof fn lemma_frame(va: int, offset: int, size: PageSize)
    requires
        0 <= va,
        offset % 0x1000 == 0,
    ensures
        match size {
            PageSize::Size4K => (va - va % 0x1000 - offset) % 0x1000 == 0,
            PageSize::Size2M => (va - va % 0x20_0000 - offset) % 0x1000 == 0,
            PageSize::Size1G => (va - va % 0x4000_0000 - offset) % 0x1000 == 0,
        },
{
    lemma_page_start(va, size);
    match size {
        PageSize::Size4K => {
            lemma_multiples(va - va % 0x1000, offset);
        },
        PageSize::Size2M => {
            lemma_smaller_unit(va - va % 0x20_0000, size, PageSize::Size4K);
            lemma_multiples(va - va % 0x20_0000, offset);
        },
        PageSize::Size1G => {
            lemma_smaller_unit(va - va % 0x4000_0000, size, PageSize::Size4K);
            lemma_multiples(va - va % 0x4000_0000, offset);
        },
    }
}

proof fn lemma_multiples(p: int, q: int)
    requires
        p % 0x1000 == 0,
        q % 0x1000 == 0,
    ensures
        (p - q) % 0x1000 == 0,
{
}

/// Why the page of this size at `va` cannot be mapped, as the tables stand.
pub open spec fn refused<PTE: GenericPTE>(
    m: Memory<PTE>,
    root: int,
    va: int,
    size: PageSize,
    err: PagingError,
) -> bool {
    let e3 = m.tables[root][(va / 0x4000_0000) % 512];
    let e2 = m.tables[e3.target() as int][(va / 0x20_0000) % 512];
    let e1 = m.tables[e2.target() as int][(va / 0x1000) % 512];
    let table3 = e3.present() && !e3.huge();
    let table2 = table3 && e2.present() && !e2.huge();
    match err {
        PagingError::NoMemory => {
            &&& forall|p: int| #[trigger] m.tables.contains_key(p) ==> m.allocated.contains(p)
            &&& size != PageSize::Size1G
            &&& e3 == PTE::zero() || size == PageSize::Size4K && table3 && e2 == PTE::zero()
        },
        PagingError::NotMapped => {
            &&& size != PageSize::Size1G
            &&& e3 != PTE::zero() && !e3.present() || size == PageSize::Size4K && table3 && e2
                != PTE::zero() && !e2.present()
        },
        PagingError::MappedToHugePage => {
            &&& size != PageSize::Size1G
            &&& e3.present() && e3.huge() || size == PageSize::Size4K && table3 && e2.present()
                && e2.huge()
        },
        PagingError::AlreadyMapped => match size {
            PageSize::Size1G => e3 != PTE::zero(),
            PageSize::Size2M => table3 && e2 != PTE::zero(),
            PageSize::Size4K => table2 && e1 != PTE::zero(),
        },
    }
}

/// A page that could not be mapped is refused for what the tables hold on the way to it, and for no
/// other reason.
pub proof fn law_map_page_refused<PTE: GenericPTE>(
    m: Memory<PTE>,
    root: int,
    va: int,
    size: PageSize,
    paddr: PhysAddr,
    flags: MemFlags,
)
    requires
        m.wf(),
        m.tree(root),
        0 <= va,
    ensures
        ({
            let done = m.map_page(root, va, size, paddr, flags);
            done.result matches Err(err) ==> refused(done.mem, root, va, size, err)
        }),
{
    reveal(Memory::entry_or_create);
    reveal(Memory::map_page);
    PTE::law_zero();
    let i = index3(va);
    let j = index2(va);
    let s3 = Slot { table: root, index: i };
    if size != PageSize::Size1G {
        let second = m.next_or_create(s3);
        if m.at(s3) == PTE::zero() {
            m.lemma_fit(1);
            lemma_none_left(m);
            if let Some(p) = m.first_fit(1) {
                m.lemma_link3(root, i, p);
                assert(second.mem.entry(p, j) == PTE::zero());
            }
        }
        if let Ok(p2) = second.result {
            assert(second.mem.has2(root, i) && second.mem.t2(root, i) == p2);
            if size != PageSize::Size2M {
                let s2 = Slot { table: p2, index: j };
                let first = second.mem.next_or_create(s2);
                if second.mem.at(s2) == PTE::zero() {
                    second.mem.lemma_fit(1);
                    lemma_none_left(second.mem);
                    if let Some(p) = second.mem.first_fit(1) {
                        second.mem.lemma_link2(root, i, j, p);
                        assert(first.mem.entry(p, index1(va)) == PTE::zero());
                    }
                }
            }
        }
    }
}

/// Where no frame can be had, all are in use.
proof fn lemma_none_left<PTE: GenericPTE>(m: Memory<PTE>)
    requires
        m.wf(),
    ensures
        m.first_fit(1) is None ==> forall|p: int| #[trigger]
            m.tables.contains_key(p) ==> m.allocated.contains(p),
{
    if m.first_fit(1) is None {
        assert forall|p: int| #[trigger] m.tables.contains_key(p) implies m.allocated.contains(
            p,
        ) by {
            if !m.allocated.contains(p) {
                assert forall|q: int|
                    p <= q < p + 1 * PAGE_SIZE && q % PAGE_SIZE as int
                        == 0 implies #[trigger] m.tables.contains_key(q) && !m.allocated.contains(
                    q,
                ) by {
                    assert(q == p);
                }
                assert(m.free_run(p, 1));
                law_first_fit(m, p, 1);
            }
        }
    }
}

/// Mapping a region fails at the first page that is refused as the tables stand by then, and leaves
/// the pages before it mapped. The page is the largest that can start there.
pub proof fn law_map_failure<PTE: GenericPTE>(
    m: Memory<PTE>,
    root: int,
    start: usize,
    len: usize,
    flags: MemFlags,
    mapper: Mapper,
)
    requires
        m.wf(),
        m.tree(root),
        start % PAGE_SIZE == 0,
        len % PAGE_SIZE == 0,
        start + len <= usize::MAX,
        maps_no_table::<PTE>(start as int, len as int, flags, mapper),
    ensures
        ({
            let done = m.map_run(root, start as int, len as int, flags, mapper);
            let stop = m.map_stop(root, start as int, len as int, flags, mapper);
            let left = start + len - stop;
            let huge = flags.bits & 0x100 != 0x100;
            let giga = huge && stop % 0x4000_0000 == 0 && goes_to(mapper, stop) % 0x4000_0000 == 0
                && left >= 0x4000_0000;
            let mega = huge && stop % 0x20_0000 == 0 && goes_to(mapper, stop) % 0x20_0000 == 0
                && left >= 0x20_0000;
            let size = if giga {
                PageSize::Size1G
            } else if mega {
                PageSize::Size2M
            } else {
                PageSize::Size4K
            };
            done.result matches Err(err) ==> refused(done.mem, root, stop, size, err)
        }),
    decreases len,
{
    if len > 0 {
        let paddr = mapper.map_fn(start);
        let size = page_size_for(start, paddr, len as int, flags);
        let page = m.map_page(root, start as int, size, paddr, flags);
        law_mapper(mapper, start);
        lemma_map_step(m, root, start, len, flags, mapper);
        law_map_page_refused(m, root, start as int, size, paddr, flags);
        if page.result is Ok {
            let next = (start + size.bytes()) as usize;
            law_map_failure(
                page.mem,
                root,
                next,
                (len - size.bytes()) as usize,
                flags,
                mapper,
            );
        }
    }
}

/// Mapping a region overwrites nothing: an entry of a table in use that was used stays as it was,
/// and frames in use stay so.
pub proof fn law_map_overwrites_nothing<PTE: GenericPTE>(
    m: Memory<PTE>,
    root: int,
    start: usize,
    len: usize,
    flags: MemFlags,
    mapper: Mapper,
)
    requires
        m.wf(),
        m.tree(root),
        start % PAGE_SIZE == 0,
        len % PAGE_SIZE == 0,
        start + len <= usize::MAX,
        maps_no_table::<PTE>(start as int, len as int, flags, mapper),
    ensures
        ({
            let after = m.map_run(root, start as int, len as int, flags, mapper).mem;
            &&& after.tables.dom() == m.tables.dom()
            &&& forall|t: int| #[trigger]
                m.allocated.contains(t) ==> after.allocated.contains(t)
            &&& forall|t: int, x: int|
                #![trigger after.tables[t][x]]
                m.tables.contains_key(t) && m.allocated.contains(t) && 0 <= x < 512
                    && m.tables[t][x] != PTE::zero() ==> after.tables[t][x] == m.tables[t][x]
        }),
    decreases len,
{
    let after = m.map_run(root, start as int, len as int, flags, mapper).mem;
    if len > 0 {
        let paddr = mapper.map_fn(start);
        let size = page_size_for(start, paddr, len as int, flags);
        let page = m.map_page(root, start as int, size, paddr, flags);
        lemma_map_step(m, root, start, len, flags, mapper);
        lemma_page_overwrites_nothing(m, root, start as int, size, paddr, flags);
        if page.result is Ok {
            let next = (start + size.bytes()) as usize;
            law_map_overwrites_nothing(
                page.mem,
                root,
                next,
                (len - size.bytes()) as usize,
                flags,
                mapper,
            );
            assert forall|t: int, x: int|
                #![trigger after.tables[t][x]]
                m.tables.contains_key(t) && m.allocated.contains(t) && 0 <= x < 512
                    && m.tables[t][x] != PTE::zero() implies after.tables[t][x]
                == m.tables[t][x] by {
                assert(page.mem.tables[t][x] == m.tables[t][x]);
                assert(page.mem.tables.contains_key(t));
            }
        }
    }
}

proof fn lemma_page_overwrites_nothing<PTE: GenericPTE>(
    m: Memory<PTE>,
    root: int,
    va: int,
    size: PageSize,
    paddr: PhysAddr,
    flags: MemFlags,
)
    requires
        m.wf(),
        m.tree(root),
    ensures
        ({
            let after = m.map_page(root, va, size, paddr, flags).mem;
            &&& after.tables.dom() == m.tables.dom()
            &&& forall|t: int| #[trigger]
                m.allocated.contains(t) ==> after.allocated.contains(t)
            &&& forall|t: int, x: int|
                #![trigger after.tables[t][x]]
                m.tables.contains_key(t) && m.allocated.contains(t) && 0 <= x < 512
                    && m.tables[t][x] != PTE::zero() ==> after.tables[t][x] == m.tables[t][x]
        }),
{
    reveal(Memory::entry_or_create);
    reveal(Memory::map_page);
    m.lemma_path(root, va, size);
    m.lemma_tree_walkable(root);
    let i = index3(va);
    let j = index2(va);
    let s3 = Slot { table: root, index: i };
    let done = m.map_page(root, va, size, paddr, flags);
    m.lemma_fit(1);
    let second = m.next_or_create(s3);
    if let Some(p) = m.first_fit(1) {
        if m.at(s3) == PTE::zero() {
            m.lemma_link3(root, i, p);
        }
    }
    if size != PageSize::Size1G {
        assert(second.mem.tables.dom() =~= m.tables.dom());
        if let Ok(p2) = second.result {
            second.mem.lemma_fit(1);
            assert(second.mem.has2(root, i));
            second.mem.lemma_tree_walkable(root);
            let first = second.mem.next_or_create(Slot { table: p2, index: j });
            assert(first.mem.tables.dom() =~= m.tables.dom());
        }
    }
    assert(done.mem.tables.dom() =~= m.tables.dom());
}

/// Unmapping a region only clears: every entry of every table is as it was or unused, and the
/// frames in use stay the same. Up to where unmapping stopped all was mapped and nothing is; every
/// other address is translated as before. Unmapping fails where an address is not mapped.
pub proof fn law_unmap_address<PTE: GenericPTE>(
    m: Memory<PTE>,
    root: int,
    start: usize,
    len: usize,
    va: int,
)
    requires
        m.wf(),
        m.tree(root),
        start + len <= usize::MAX,
        m.unmaps_whole_pages(root, start as int, len as int),
        0 <= va,
    ensures
        ({
            let done = m.unmap_run(root, start as int, len as int);
            let stop = m.unmap_stop(root, start as int, len as int);
            let after = done.mem;
            let unmapped = Err::<(int, MemFlags, PageSize), PagingError>(PagingError::NotMapped);
            &&& start <= stop <= start + len
            &&& done.result is Ok <==> stop == start + len
            &&& done.result matches Err(err) ==> err == PagingError::NotMapped && after.translate(
                root,
                stop,
            ) == unmapped
            &&& if (va - start) % 0x80_0000_0000 < stop - start {
                m.translate(root, va) is Ok && after.translate(root, va) == unmapped
            } else {
                after.translate(root, va) == m.translate(root, va)
            }
        }),
{
    law_unmap_run(m, root, start, len);
    let after = m.unmap_run(root, start as int, len as int).mem;
    assert(after.leaf(root, va) == after.leaf(root, va));
    assert(m.leaf(root, va) == m.leaf(root, va));
}

/// Unmapping a region clears entries and does nothing else to the memory.
pub proof fn law_unmap_clears<PTE: GenericPTE>(m: Memory<PTE>, root: int, start: usize, len: usize)
    requires
        m.wf(),
        m.tree(root),
        start + len <= usize::MAX,
        m.unmaps_whole_pages(root, start as int, len as int),
    ensures
        ({
            let after = m.unmap_run(root, start as int, len as int).mem;
            &&& after.allocated == m.allocated
            &&& after.tables.dom() == m.tables.dom()
            &&& forall|t: int, x: int|
                #![trigger after.tables[t][x]]
                m.tables.contains_key(t) && 0 <= x < 512 ==> after.tables[t][x] == m.tables[t][x]
                    || after.tables[t][x] == PTE::zero()
        }),
    decreases len,
{
    if len > 0 {
        let page = m.unmap_page(root, start as int);
        lemma_unmap_step(m, root, start, len);
        m.lemma_tree_walkable(root);
        m.lemma_located(root, start as int);
        assert({
            &&& page.mem.allocated == m.allocated
            &&& page.mem.tables.dom() == m.tables.dom()
            &&& forall|t: int, x: int|
                #![trigger page.mem.tables[t][x]]
                m.tables.contains_key(t) && 0 <= x < 512 ==> page.mem.tables[t][x]
                    == m.tables[t][x] || page.mem.tables[t][x] == PTE::zero()
        }) by {
            reveal(Memory::unmap_page);
            assert(page.mem.tables.dom() =~= m.tables.dom());
        }
        if let Ok((_, size)) = page.result {
            let next = (start + size.bytes()) as usize;
            law_unmap_clears(page.mem, root, next, (len - size.bytes()) as usize);
            let after = m.unmap_run(root, start as int, len as int).mem;
            assert forall|t: int, x: int|
                #![trigger after.tables[t][x]]
                m.tables.contains_key(t) && 0 <= x < 512 implies after.tables[t][x]
                == m.tables[t][x] || after.tables[t][x] == PTE::zero() by {
                assert(page.mem.tables.contains_key(t));
                assert(page.mem.tables[t][x] == m.tables[t][x] || page.mem.tables[t][x]
                    == PTE::zero());
            }
        }
    }
}

/// A clone is made of four frames at a multiple of their length, none of which was in use: the
/// first holds the entries of the root of the original, one for one, the others are zero. Nothing
/// else is changed.
pub proof fn law_clone_frames<PTE: GenericPTE>(m: Memory<PTE>, src: int, dst: int)
    requires
        m.wf(),
        m.tree(src),
        m.first_fit(ROOT_FRAMES as int) == Some(dst),
    ensures
        ({
            let after = m.clone_root(src, dst);
            &&& after.tables[dst] == m.tables[src]
            &&& after.tables.dom() == m.tables.dom()
            &&& forall|t: int|
                m.tables.contains_key(t) && !(dst <= t < dst + 0x4000) ==> #[trigger] after.tables[t]
                    == m.tables[t]
            &&& forall|t: int|
                dst < t < dst + 0x4000 && t % 0x1000 == 0 ==> #[trigger] after.tables[t]
                    == Seq::new(512, |x: int| PTE::zero())
            &&& forall|t: int| #[trigger]
                after.allocated.contains(t) <==> m.allocated.contains(t) || t % 0x1000 == 0 && dst
                    <= t < dst + 0x4000
        }),
{
    law_root_frames(m);
    let after = m.clone_root(src, dst);
    assert(after.tables.dom() =~= m.tables.dom());
}

/// A new root is made of four frames at a multiple of their length, none of which was in use, and
/// all of which are then zero. They are the first such frames; nothing else is changed. Where there
/// are none, every four frames that lie so are in use in part.
pub proof fn law_root_frames<PTE: GenericPTE>(m: Memory<PTE>)
    requires
        m.wf(),
    ensures
        match m.first_fit(ROOT_FRAMES as int) {
            Some(root) => {
                let after = m.allocate(root, ROOT_FRAMES as int);
                &&& root % 0x4000 == 0
                &&& forall|t: int|
                    root <= t < root + 0x4000 && t % 0x1000 == 0
                        ==> #[trigger] m.tables.contains_key(t) && !m.allocated.contains(t)
                &&& forall|q: int|
                    q < root && q % 0x4000 == 0 ==> {
                        ||| !#[trigger] m.tables.contains_key(q) || m.allocated.contains(q)
                        ||| !m.tables.contains_key(q + 0x1000) || m.allocated.contains(q + 0x1000)
                        ||| !m.tables.contains_key(q + 0x2000) || m.allocated.contains(q + 0x2000)
                        ||| !m.tables.contains_key(q + 0x3000) || m.allocated.contains(q + 0x3000)
                    }
                &&& after.tables.dom() == m.tables.dom()
                &&& forall|t: int|
                    m.tables.contains_key(t) ==> #[trigger] after.tables[t] == if root <= t < root
                        + 0x4000 {
                        Seq::new(512, |x: int| PTE::zero())
                    } else {
                        m.tables[t]
                    }
                &&& forall|t: int| #[trigger]
                    after.allocated.contains(t) <==> m.allocated.contains(t) || t % 0x1000 == 0
                        && root <= t < root + 0x4000
            },
            None => forall|q: int|
                q % 0x4000 == 0 ==> {
                    ||| !#[trigger] m.tables.contains_key(q) || m.allocated.contains(q)
                    ||| !m.tables.contains_key(q + 0x1000) || m.allocated.contains(q + 0x1000)
                    ||| !m.tables.contains_key(q + 0x2000) || m.allocated.contains(q + 0x2000)
                    ||| !m.tables.contains_key(q + 0x3000) || m.allocated.contains(q + 0x3000)
                },
        },
{
    m.lemma_fit(4);
    assert forall|q: int|
        q % 0x4000 == 0 && {
            &&& #[trigger] m.tables.contains_key(q) && !m.allocated.contains(q)
            &&& m.tables.contains_key(q + 0x1000) && !m.allocated.contains(q + 0x1000)
            &&& m.tables.contains_key(q + 0x2000) && !m.allocated.contains(q + 0x2000)
            &&& m.tables.contains_key(q + 0x3000) && !m.allocated.contains(q + 0x3000)
        } implies m.first_fit(4) matches Some(root) && root <= q by {
        assert forall|t: int|
            q <= t < q + 4 * PAGE_SIZE && t % PAGE_SIZE as int
                == 0 implies #[trigger] m.tables.contains_key(t) && !m.allocated.contains(t) by {
            assert(t == q || t == q + 0x1000 || t == q + 0x2000 || t == q + 0x3000);
        }
        assert(m.free_run(q, 4));
        law_first_fit(m, q, 4);
    }
    if let Some(root) = m.first_fit(4) {
        let after = m.allocate(root, 4);
        assert(after.tables.dom() =~= m.tables.dom());
        assert forall|t: int| root <= t < root + 0x4000 && t % 0x1000 == 0 implies
            #[trigger] m.tables.contains_key(t) && !m.allocated.contains(t) by {}
    }
}

/// All tables of a page table are in memory if and only if those on the way to every address are.
pub proof fn law_all_ways<PTE: GenericPTE>(m: Memory<PTE>, root: int)
    ensures
        m.walkable(root) <==> forall|va: int| 0 <= va ==> #[trigger] m.way(root, va),
{
    if forall|va: int| 0 <= va ==> #[trigger] m.way(root, va) {
        assert(m.way(root, 0));
        assert forall|i: int| #[trigger] m.has2(root, i) implies m.tables.contains_key(
            m.t2(root, i),
        ) by {
            let va = i * 0x4000_0000;
            assert(index3(va) == i);
            assert(m.way(root, va));
        }
        assert forall|i: int, j: int| #[trigger] m.has1(root, i, j) implies m.tables.contains_key(
            m.t1(root, i, j),
        ) by {
            let va = i * 0x4000_0000 + j * 0x20_0000;
            assert(va / 0x20_0000 == i * 512 + j);
            assert(index3(va) == i && index2(va) == j);
            assert(m.way(root, va));
        }
    }
}

/// A query is answered by the translation: the address, the flags and the size, or the error.
pub proof fn law_answers(
    r: PagingResult<(PhysAddr, MemFlags, PageSize)>,
    t: PagingResult<(int, MemFlags, PageSize)>,
)
    requires
        answers(r, t),
    ensures
        r is Ok <==> t is Ok,
        r matches Ok(a) ==> a.0 == t->Ok_0.0 && a.1 == t->Ok_0.1 && a.2 == t->Ok_0.2,
        r matches Err(e) ==> t->Err_0 == e,
{
}

/// The table behind an entry: there is none where the entry is not present, nor where it is huge.
pub proof fn law_next_table<PTE: GenericPTE>(e: PTE)
    ensures
        next_table(e) == if e.present() && !e.huge() {
            Ok::<int, PagingError>(e.target() as int)
        } else if e.present() {
            Err(PagingError::MappedToHugePage)
        } else {
            Err(PagingError::NotMapped)
        },
{
}

/// The next single frame is the first one that is not in use.
pub proof fn law_single_frame<PTE: GenericPTE>(m: Memory<PTE>)
    requires
        m.wf(),
    ensures
        match m.first_fit(1) {
            Some(p) => {
                let after = m.allocate(p, 1);
                &&& m.tables.contains_key(p) && !m.allocated.contains(p)
                &&& forall|q: int| #[trigger]
                    m.tables.contains_key(q) && q < p ==> m.allocated.contains(q)
                &&& after.tables == m.tables.insert(p, Seq::new(512, |x: int| PTE::zero()))
                &&& after.allocated == m.allocated.insert(p)
            },
            None => forall|q: int| #[trigger]
                m.tables.contains_key(q) ==> m.allocated.contains(q),
        },
{
    m.lemma_fit(1);
    lemma_none_left(m);
    if let Some(p) = m.first_fit(1) {
        let after = m.allocate(p, 1);
        assert forall|q: int| #[trigger] m.tables.contains_key(q) && q < p implies m.allocated.contains(
            q,
        ) by {
            if !m.allocated.contains(q) {
                assert forall|t: int|
                    q <= t < q + 1 * PAGE_SIZE && t % PAGE_SIZE as int
                        == 0 implies #[trigger] m.tables.contains_key(t) && !m.allocated.contains(
                    t,
                ) by {
                    assert(t == q);
                }
                assert(m.free_run(q, 1));
                law_first_fit(m, q, 1);
            }
        }
        assert(after.tables =~= m.tables.insert(p, Seq::new(512, |x: int| PTE::zero()))) by {
            assert forall|q: int| #[trigger] m.tables.contains_key(q) implies after.tables[q]
                == m.tables.insert(p, Seq::new(512, |x: int| PTE::zero()))[q] by {
                if q == p {
                    assert(after.tables[q] =~= Seq::new(512, |x: int| PTE::zero()));
                }
            }
        }
        assert(after.allocated =~= m.allocated.insert(p));
    }
}

/// Every frame that mapping a region takes is made a table of the page table: an entry of the root,
/// or of a table behind it, points to it.
pub proof fn law_map_frames<PTE: GenericPTE>(
    m: Memory<PTE>,
    root: int,
    start: usize,
    len: usize,
    flags: MemFlags,
    mapper: Mapper,
    t: int,
)
    requires
        m.wf(),
        m.tree(root),
        start % PAGE_SIZE == 0,
        len % PAGE_SIZE == 0,
        start + len <= usize::MAX,
        maps_no_table::<PTE>(start as int, len as int, flags, mapper),
        m.map_run(root, start as int, len as int, flags, mapper).mem.allocated.contains(t),
        !m.allocated.contains(t),
    ensures
        ({
            let after = m.map_run(root, start as int, len as int, flags, mapper).mem;
            &&& m.tables.contains_key(t)
            &&& {
                ||| exists|i: int|
                    0 <= i < 512 && {
                        let e3 = #[trigger] after.tables[root][i];
                        e3.present() && !e3.huge() && e3.target() == t
                    }
                ||| exists|i: int, j: int|
                    0 <= i < 512 && 0 <= j < 512 && {
                        let e3 = after.tables[root][i];
                        let e2 = #[trigger] after.tables[after.tables[root][i].target() as int][j];
                        e3.present() && !e3.huge() && e2.present() && !e2.huge() && e2.target() == t
                    }
            }
        }),
{
    let done = m.map_run(root, start as int, len as int, flags, mapper);
    let after = done.mem;
    law_map_grows(m, root, start, len, flags, mapper);
    m.lemma_tree_walkable(root);
    assert(done.taken.contains(t));
    assert(after.owns(root, t));
    if exists|i: int| #[trigger] after.has2(root, i) && after.t2(root, i) == t {
        let i = choose|i: int| #[trigger] after.has2(root, i) && after.t2(root, i) == t;
        assert(after.tables[root][i].target() == t);
    } else {
        let (i, j) = choose|i: int, j: int| #[trigger]
            after.has1(root, i, j) && after.t1(root, i, j) == t;
        assert(after.has2(root, i));
        assert(after.tables[after.tables[root][i].target() as int][j].target() == t);
    }
}

/// Frames that are kept one by one: each is a single frame, at its address.
pub proof fn law_single_frames(addrs: Seq<int>, k: int)
    requires
        0 <= k < addrs.len(),
        0 <= addrs[k] <= usize::MAX,
    ensures
        single_frames(addrs).len() == addrs.len(),
        single_frames(addrs)[k].start_paddr == addrs[k],
        single_frames(addrs)[k].frame_count == 1,
{
}

/// A page table that keeps all its tables keeps the frame of every table that an entry leads to.
pub proof fn law_all_kept<PTE: GenericPTE>(
    m: Memory<PTE>,
    root: int,
    frames: Seq<Frame>,
    i: int,
    j: int,
)
    requires
        all_kept(m, root, frames),
        m.tree(root),
        0 <= i < 512,
        m.tables[root][i].present(),
        !m.tables[root][i].huge(),
    ensures
        ({
            let t2 = m.tables[root][i].target();
            let e2 = m.tables[t2 as int][j];
            &&& exists|k: int| 0 <= k < frames.len() && (#[trigger] frames[k]).start_paddr == t2
            &&& 0 <= j < 512 && e2.present() && !e2.huge() ==> exists|k: int|
                0 <= k < frames.len() && (#[trigger] frames[k]).start_paddr == e2.target()
        }),
{
    reveal(Memory::tree);
    let t2 = m.t2(root, i);
    assert(m.has2(root, i));
    assert(m.owns(root, t2));
    assert(among(frames, t2));
    if 0 <= j < 512 && is_table(m.entry(t2, j)) {
        assert(m.has1(root, i, j));
        assert(m.owns(root, m.t1(root, i, j)));
        assert(among(frames, m.t1(root, i, j)));
    }
}

/// Taking a frame into use as it is changes no table, and no other frame.
pub proof fn law_reserve_frame<PTE: GenericPTE>(m: Memory<PTE>, p: int, q: int)
    ensures
        m.reserve(p).tables == m.tables,
        m.reserve(p).allocated.contains(q) <==> q == p || m.allocated.contains(q),
{
}

} // verus!
