//! What mapping, unmapping and updating mean for the translation of addresses.
use vstd::prelude::*;

use crate::addr::{PhysAddr, PAGE_SIZE};
use crate::change::{maps_no_table, page_flags, page_start};
use crate::entry::GenericPTE;
use crate::error::{PagingError, PagingResult};
use crate::flags::MemFlags;
use crate::laws::law_update;
use crate::memory::Memory;
use crate::page::PageSize;
use crate::region::Mapper;
use crate::region_laws::{is_page, law_map_run, law_unmap_run, region_entry, region_flags};
use crate::spans::{
    in_span, lemma_in_span, lemma_offset, lemma_page_span, lemma_page_start, region_page,
};

verus! {

/// An address of a region is translated to where the region maps the start of its page, and as far
/// behind it as in the page, as far as an entry can hold it; the flags are those of the region as
/// far as an entry keeps them.
pub open spec fn translated_by<PTE: GenericPTE>(
    translation: PagingResult<(int, MemFlags, PageSize)>,
    flags: MemFlags,
    mapper: Mapper,
    va: int,
) -> bool {
    translation matches Ok((paddr, rights, size)) && {
        let first = mapper.map_fn((va - va % size.bytes() as int) as usize);
        let frame = page_start(first, size);
        &&& rights == PTE::kept_flags(page_flags(size, flags))
        &&& PTE::holds_addr(frame) ==> paddr == frame + va % size.bytes() as int
    }
}

/// What `mapped_up_to` means for translations.
pub open spec fn translated_up_to<PTE: GenericPTE>(
    before: Memory<PTE>,
    after: Memory<PTE>,
    root: int,
    start: int,
    stop: int,
    flags: MemFlags,
    mapper: Mapper,
) -> bool {
    &&& forall|va: int|
        0 <= va && !in_span(va, start, stop) ==> #[trigger] after.translate(root, va)
            == before.translate(root, va)
    &&& forall|va: int|
        start <= va < stop ==> #[trigger] before.translate(root, va) == Err::<
            (int, MemFlags, PageSize),
            PagingError,
        >(PagingError::NotMapped)
    &&& region_flags::<PTE>(flags) ==> forall|va: int|
        start <= va < stop ==> translated_by::<PTE>(
            #[trigger] after.translate(root, va),
            flags,
            mapper,
            va,
        )
}

/// What `unmapped_up_to` means for translations.
pub open spec fn untranslated_up_to<PTE: GenericPTE>(
    before: Memory<PTE>,
    after: Memory<PTE>,
    root: int,
    start: int,
    stop: int,
) -> bool {
    &&& forall|va: int|
        0 <= va && !in_span(va, start, stop) ==> #[trigger] after.translate(root, va)
            == before.translate(root, va)
    &&& forall|va: int| start <= va < stop ==> #[trigger] before.translate(root, va) is Ok
    &&& forall|va: int|
        start <= va < stop ==> #[trigger] after.translate(root, va) == Err::<
            (int, MemFlags, PageSize),
            PagingError,
        >(PagingError::NotMapped)
}

/// An address is translated by a page whose mapping was changed to `paddr`, with these flags.
pub open spec fn updated_to<PTE: GenericPTE>(
    translation: PagingResult<(int, MemFlags, PageSize)>,
    size: PageSize,
    paddr: PhysAddr,
    flags: MemFlags,
    va: int,
) -> bool {
    translation matches Ok((to, rights, s)) && {
        &&& s == size
        &&& rights == PTE::kept_flags(flags)
        &&& PTE::holds_addr(paddr) ==> to == paddr + va % size.bytes() as int
    }
}

/// Every address of a region, up to where mapping it stopped, is translated to where the region
/// maps the start of its page, and as far behind it as in the page; the flags are those of the
/// region as far as an entry keeps them. Where a region lies at a constant distance from its
/// frames, so does every address in it.
pub proof fn law_map_query<PTE: GenericPTE>(
    m: Memory<PTE>,
    root: int,
    start: usize,
    size: usize,
    flags: MemFlags,
    mapper: Mapper,
    vaddr: usize,
)
    requires
        m.wf(),
        m.tree(root),
        start % PAGE_SIZE == 0,
        size % PAGE_SIZE == 0,
        start + size <= usize::MAX,
        maps_no_table::<PTE>(start as int, size as int, flags, mapper),
        start <= vaddr < m.map_stop(root, start as int, size as int, flags, mapper),
        is_page(
            region_entry::<PTE>(start as int, size as int, flags, mapper, vaddr as int),
            region_page(start as int, size as int, flags, mapper, vaddr as int),
        ),
    ensures
        ({
            let after = m.map_run(root, start as int, size as int, flags, mapper).mem;
            &&& translated_by::<PTE>(after.translate(root, vaddr as int), flags, mapper, vaddr as int)
            &&& after.translate(root, vaddr as int) matches Ok((paddr, _, page_size)) && {
                let first = mapper.map_fn((vaddr - vaddr % page_size.bytes()) as usize);
                let frame = page_start(first, page_size);
                &&& page_size == region_page(start as int, size as int, flags, mapper, vaddr as int)
                &&& PTE::holds_addr(frame) && mapper is Offset && mapper->Offset_0 % PAGE_SIZE == 0
                    ==> paddr == mapper.map_fn(vaddr)
            }
        }),
{
    law_map_run(m, root, start, size, flags, mapper);
    let after = m.map_run(root, start as int, size as int, flags, mapper).mem;
    let page_size = region_page(start as int, size as int, flags, mapper, vaddr as int);
    assert(after.leaf(root, vaddr as int) is Ok);
    let first = mapper.map_fn((vaddr - vaddr % page_size.bytes()) as usize);
    let frame = page_start(first, page_size);
    PTE::zero().law_set_addr(frame);
    PTE::zero().with_addr(frame).law_set_flags(page_flags(page_size, flags));
    if mapper is Offset && mapper->Offset_0 % PAGE_SIZE == 0 {
        lemma_offset(vaddr, mapper->Offset_0, page_size);
    }
}

/// Mapping a region, as it shows in translations.
pub proof fn law_map_translations<PTE: GenericPTE>(
    m: Memory<PTE>,
    root: int,
    start: usize,
    size: usize,
    flags: MemFlags,
    mapper: Mapper,
)
    requires
        m.wf(),
        m.tree(root),
        start % PAGE_SIZE == 0,
        size % PAGE_SIZE == 0,
        start + size <= usize::MAX,
        maps_no_table::<PTE>(start as int, size as int, flags, mapper),
    ensures
        translated_up_to(
            m,
            m.map_run(root, start as int, size as int, flags, mapper).mem,
            root,
            start as int,
            m.map_stop(root, start as int, size as int, flags, mapper),
            flags,
            mapper,
        ),
{
    law_map_run(m, root, start, size, flags, mapper);
    let after = m.map_run(root, start as int, size as int, flags, mapper).mem;
    let stop = m.map_stop(root, start as int, size as int, flags, mapper);
    assert forall|va: int| 0 <= va && !in_span(va, start as int, stop) implies #[trigger] after.translate(
        root,
        va,
    ) == m.translate(root, va) by {
        assert(after.leaf(root, va) == m.leaf(root, va));
    }
    assert forall|va: int| start <= va < stop implies #[trigger] m.translate(root, va) == Err::<
        (int, MemFlags, PageSize),
        PagingError,
    >(PagingError::NotMapped) by {
        lemma_in_span(va, start as int, stop);
        assert(m.leaf(root, va) is Err);
    }
    if region_flags::<PTE>(flags) {
        assert forall|va: int| start <= va < stop implies translated_by::<PTE>(
            #[trigger] after.translate(root, va),
            flags,
            mapper,
            va,
        ) by {
            let page_size = region_page(start as int, size as int, flags, mapper, va);
            let first = mapper.map_fn((va - va % page_size.bytes() as int) as usize);
            PTE::law_zero();
            PTE::zero().with_addr(page_start(first, page_size)).law_set_flags(
                page_flags(page_size, flags),
            );
            law_map_query(m, root, start, size, flags, mapper, va as usize);
        }
    }
}

/// Unmapping a region, as it shows in translations.
pub proof fn law_unmap_translations<PTE: GenericPTE>(
    m: Memory<PTE>,
    root: int,
    start: usize,
    size: usize,
)
    requires
        m.wf(),
        m.tree(root),
        start + size <= usize::MAX,
        m.unmaps_whole_pages(root, start as int, size as int),
    ensures
        untranslated_up_to(
            m,
            m.unmap_run(root, start as int, size as int).mem,
            root,
            start as int,
            m.unmap_stop(root, start as int, size as int),
        ),
{
    law_unmap_run(m, root, start, size);
    let after = m.unmap_run(root, start as int, size as int).mem;
    let stop = m.unmap_stop(root, start as int, size as int);
    assert forall|va: int| 0 <= va && !in_span(va, start as int, stop) implies #[trigger] after.translate(
        root,
        va,
    ) == m.translate(root, va) by {
        assert(after.leaf(root, va) == m.leaf(root, va));
    }
    assert forall|va: int| start <= va < stop implies #[trigger] m.translate(root, va) is Ok by {
        lemma_in_span(va, start as int, stop);
        assert(m.leaf(root, va) is Ok);
    }
    assert forall|va: int| start <= va < stop implies #[trigger] after.translate(root, va) == Err::<
        (int, MemFlags, PageSize),
        PagingError,
    >(PagingError::NotMapped) by {
        lemma_in_span(va, start as int, stop);
        assert(after.leaf(root, va) is Err);
    }
}

/// Changing the mapping of a page, as it shows in translations.
pub proof fn law_update_translations<PTE: GenericPTE>(
    m: Memory<PTE>,
    root: int,
    vaddr: int,
    paddr: PhysAddr,
    flags: MemFlags,
)
    requires
        m.wf(),
        m.tree(root),
        0 <= vaddr,
    ensures
        ({
            let done = m.update_page(root, vaddr, paddr, flags);
            let after = done.mem;
            match done.result {
                Ok(size) => {
                    let first = vaddr - vaddr % size.bytes() as int;
                    &&& forall|va: int|
                        0 <= va && !in_span(va, first, first + size.bytes())
                            ==> #[trigger] after.translate(root, va) == m.translate(root, va)
                    &&& PTE::terminal_flags(flags) || size == PageSize::Size4K && (forall|e: PTE|
                        #[trigger] e.with_flags(flags) != PTE::zero()) ==> forall|va: int|
                        0 <= va && in_span(va, first, first + size.bytes()) ==> updated_to::<PTE>(
                            #[trigger] after.translate(root, va),
                            size,
                            paddr,
                            flags,
                            va,
                        )
                },
                Err(e) => m.translate(root, vaddr) == Err::<(int, MemFlags, PageSize), PagingError>(
                    e,
                ),
            }
        }),
{
    law_update(m, root, vaddr, paddr, flags);
    let done = m.update_page(root, vaddr, paddr, flags);
    let after = done.mem;
    if let Ok(size) = done.result {
        let first = vaddr - vaddr % size.bytes() as int;
        lemma_page_start(vaddr, size);
        lemma_page_span(vaddr, first, size);
        assert forall|va: int| 0 <= va && !in_span(va, first, first + size.bytes()) implies #[trigger] after.translate(
            root,
            va,
        ) == m.translate(root, va) by {
            lemma_page_span(va, first, size);
            assert(after.leaf(root, va) == m.leaf(root, va));
        }
        if PTE::terminal_flags(flags) || size == PageSize::Size4K && (forall|e: PTE|
            #[trigger] e.with_flags(flags) != PTE::zero()) {
            assert forall|va: int|
                0 <= va && in_span(va, first, first + size.bytes()) implies updated_to::<PTE>(
                #[trigger] after.translate(root, va),
                size,
                paddr,
                flags,
                va,
            ) by {
                lemma_page_span(va, first, size);
                assert(after.leaf(root, va) is Ok);
            }
        }
    }
}

} // verus!
