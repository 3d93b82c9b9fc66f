//! What holds when whole regions are mapped and unmapped.
use vstd::prelude::*;

use crate::addr::PAGE_SIZE;
use crate::change::{maps_no_table, page_entry, page_flags, page_size_for, page_start};
use crate::entry::GenericPTE;
use crate::error::PagingError;
use crate::flags::MemFlags;
use crate::laws::{
    law_leaf_error, law_leaf_page, law_map_page, law_unmap_page, lemma_map_step, lemma_page_fits,
    lemma_unmap_step,
};
use crate::memory::Memory;
use crate::model::{reach, same_page};
use crate::page::PageSize;
use crate::region::Mapper;
use crate::spans::{
    in_span, lemma_in_span, lemma_page_span, lemma_region_step, lemma_span_split, region_page,
};

verus! {

/// Pages that are mapped with these flags are terminal entries, whatever their size.
pub open spec fn region_flags<PTE: GenericPTE>(flags: MemFlags) -> bool {
    forall|size: PageSize| PTE::terminal_flags(#[trigger] page_flags(size, flags))
}

/// The entry maps a page of this size.
pub open spec fn is_page<PTE: GenericPTE>(e: PTE, size: PageSize) -> bool {
    e != PTE::zero() && (size == PageSize::Size4K || e.huge())
}

/// The entry by which `va` is mapped as part of a region of `left` bytes from `vaddr` on: it goes
/// to where the region maps the start of its page.
pub open spec fn region_entry<PTE: GenericPTE>(
    vaddr: int,
    left: int,
    flags: MemFlags,
    mapper: Mapper,
    va: int,
) -> PTE {
    let size = region_page(vaddr, left, flags, mapper, va);
    page_entry(size, mapper.map_fn((va - va % size.bytes() as int) as usize), flags)
}

/// All that a region of `left` bytes from `vaddr` on is mapped by are pages.
pub open spec fn maps_pages<PTE: GenericPTE>(
    vaddr: int,
    left: int,
    flags: MemFlags,
    mapper: Mapper,
) -> bool
    decreases left,
{
    left >= PAGE_SIZE ==> {
        let paddr = mapper.map_fn(vaddr as usize);
        let size = page_size_for(vaddr as usize, paddr, left, flags);
        &&& is_page(page_entry::<PTE>(size, paddr, flags), size)
        &&& maps_pages::<PTE>(vaddr + size.bytes(), left - size.bytes(), flags, mapper)
    }
}

/// From `before` to `after`, the addresses from `start` up to `stop` were mapped as part of a
/// region of `len` bytes: nothing was mapped there before, each of them is now translated by its
/// entry in the region, and no other address was touched.
pub open spec fn mapped_up_to<PTE: GenericPTE>(
    before: Memory<PTE>,
    after: Memory<PTE>,
    root: int,
    start: int,
    len: int,
    stop: int,
    flags: MemFlags,
    mapper: Mapper,
) -> bool {
    &&& forall|va: int|
        0 <= va && !in_span(va, start, stop) ==> #[trigger] after.leaf(root, va) == before.leaf(
            root,
            va,
        )
    &&& forall|va: int|
        0 <= va && in_span(va, start, stop) ==> #[trigger] before.leaf(root, va) == Err::<
            (PTE, PageSize),
            PagingError,
        >(PagingError::NotMapped)
    &&& forall|va: int|
        start <= va < stop ==> {
            let size = region_page(start, len, flags, mapper, va);
            let e = region_entry::<PTE>(start, len, flags, mapper, va);
            is_page(e, size) ==> #[trigger] after.leaf(root, va) == Ok::<
                (PTE, PageSize),
                PagingError,
            >((e, size))
        }
}

/// From `before` to `after`, the addresses from `start` up to `stop`, all of which were mapped, lost
/// their mappings, and no other one was touched.
pub open spec fn unmapped_up_to<PTE: GenericPTE>(
    before: Memory<PTE>,
    after: Memory<PTE>,
    root: int,
    start: int,
    stop: int,
) -> bool {
    &&& forall|va: int|
        0 <= va && !in_span(va, start, stop) ==> #[trigger] after.leaf(root, va) == before.leaf(
            root,
            va,
        )
    &&& forall|va: int|
        0 <= va && in_span(va, start, stop) ==> #[trigger] before.leaf(root, va) is Ok
    &&& forall|va: int|
        0 <= va && in_span(va, start, stop) ==> #[trigger] after.leaf(root, va) == Err::<
            (PTE, PageSize),
            PagingError,
        >(PagingError::NotMapped)
}

impl<PTE: GenericPTE> Memory<PTE> {
    /// The first address of a region that is not mapped when mapping it ends.
    pub open spec fn map_stop(
        self,
        root: int,
        vaddr: int,
        left: int,
        flags: MemFlags,
        mapper: Mapper,
    ) -> int
        decreases left,
    {
        if left < PAGE_SIZE {
            vaddr
        } else {
            let paddr = mapper.map_fn(vaddr as usize);
            let size = page_size_for(vaddr as usize, paddr, left, flags);
            let page = self.map_page(root, vaddr, size, paddr, flags);
            match page.result {
                Err(_) => vaddr,
                Ok(_) => page.mem.map_stop(
                    root,
                    vaddr + size.bytes(),
                    left - size.bytes(),
                    flags,
                    mapper,
                ),
            }
        }
    }

    /// The first address of a region whose mapping is not taken back when unmapping it ends.
    pub open spec fn unmap_stop(self, root: int, vaddr: int, left: int) -> int
        decreases left,
    {
        if left <= 0 {
            vaddr
        } else {
            let page = self.unmap_page(root, vaddr);
            match page.result {
                Err(_) => vaddr,
                Ok((_, size)) => if size.bytes() > left {
                    vaddr
                } else {
                    page.mem.unmap_stop(root, vaddr + size.bytes(), left - size.bytes())
                },
            }
        }
    }
}

/// An address in the first page of a region is mapped by that page; any other as in the rest of the
/// region.
proof fn lemma_entry_step<PTE: GenericPTE>(
    vaddr: usize,
    left: usize,
    flags: MemFlags,
    mapper: Mapper,
    va: int,
)
    requires
        vaddr % PAGE_SIZE == 0,
        left % PAGE_SIZE == 0,
        0 < left,
        vaddr + left <= usize::MAX,
        vaddr <= va < vaddr + left,
    ensures
        ({
            let paddr = mapper.map_fn(vaddr);
            let first = page_size_for(vaddr, paddr, left as int, flags);
            let next = vaddr + first.bytes();
            let rest = left - first.bytes();
            let size = region_page(vaddr as int, left as int, flags, mapper, va);
            let e = region_entry::<PTE>(vaddr as int, left as int, flags, mapper, va);
            if va < next {
                &&& size == first
                &&& e == page_entry::<PTE>(first, paddr, flags)
                &&& same_page(va, vaddr as int, first)
            } else {
                &&& size == region_page(next, rest, flags, mapper, va)
                &&& e == region_entry::<PTE>(next, rest, flags, mapper, va)
            }
        }),
{
    let first = page_size_for(vaddr, mapper.map_fn(vaddr), left as int, flags);
    lemma_page_fits(vaddr, mapper.map_fn(vaddr), left, flags);
    lemma_region_step(vaddr, left, flags, mapper, va);
    if va < vaddr + first.bytes() {
        lemma_page_span(va, vaddr as int, first);
        lemma_in_span(va, vaddr as int, vaddr + first.bytes());
    }
}

/// A page was mapped, and then the rest of a region: what was not mapped before, and what was not
/// touched.
proof fn lemma_mapped_so_far<PTE: GenericPTE>(
    m: Memory<PTE>,
    middle: Memory<PTE>,
    after: Memory<PTE>,
    root: int,
    vaddr: int,
    size: PageSize,
    stop: int,
)
    requires
        0 <= vaddr,
        vaddr % size.bytes() as int == 0,
        vaddr + size.bytes() <= stop,
        forall|va: int|
            0 <= va && !same_page(va, vaddr, size) ==> #[trigger] middle.leaf(root, va) == m.leaf(
                root,
                va,
            ),
        forall|va: int|
            0 <= va && same_page(va, vaddr, size) ==> #[trigger] m.leaf(root, va) == Err::<
                (PTE, PageSize),
                PagingError,
            >(PagingError::NotMapped),
        forall|va: int|
            0 <= va && !in_span(va, vaddr + size.bytes(), stop) ==> #[trigger] after.leaf(root, va)
                == middle.leaf(root, va),
        forall|va: int|
            0 <= va && in_span(va, vaddr + size.bytes(), stop) ==> #[trigger] middle.leaf(root, va)
                == Err::<(PTE, PageSize), PagingError>(PagingError::NotMapped),
    ensures
        forall|va: int|
            0 <= va && !in_span(va, vaddr, stop) ==> #[trigger] after.leaf(root, va) == m.leaf(
                root,
                va,
            ),
        forall|va: int|
            0 <= va && in_span(va, vaddr, stop) ==> #[trigger] m.leaf(root, va) == Err::<
                (PTE, PageSize),
                PagingError,
            >(PagingError::NotMapped),
{
    let next = vaddr + size.bytes();
    assert forall|va: int| 0 <= va && !in_span(va, vaddr, stop) implies #[trigger] after.leaf(
        root,
        va,
    ) == m.leaf(root, va) by {
        lemma_page_span(va, vaddr, size);
        lemma_span_split(va, vaddr, next, stop);
        assert(middle.leaf(root, va) == m.leaf(root, va));
    }
    assert forall|va: int| 0 <= va && in_span(va, vaddr, stop) implies #[trigger] m.leaf(root, va)
        == Err::<(PTE, PageSize), PagingError>(PagingError::NotMapped) by {
        lemma_page_span(va, vaddr, size);
        lemma_span_split(va, vaddr, next, stop);
        if !same_page(va, vaddr, size) {
            assert(middle.leaf(root, va) == m.leaf(root, va));
        }
    }
}

/// Mapping a region, step by step: from the start of the region up to where mapping stopped,
/// nothing was mapped before and all is mapped as the region says; every other address is
/// translated as before. Mapping stops at the end of the region, or with an error before it.
pub proof fn law_map_run<PTE: GenericPTE>(
    m: Memory<PTE>,
    root: int,
    vaddr: usize,
    left: usize,
    flags: MemFlags,
    mapper: Mapper,
)
    requires
        m.wf(),
        m.tree(root),
        vaddr % PAGE_SIZE == 0,
        left % PAGE_SIZE == 0,
        vaddr + left <= usize::MAX,
        maps_no_table::<PTE>(vaddr as int, left as int, flags, mapper),
    ensures
        ({
            let done = m.map_run(root, vaddr as int, left as int, flags, mapper);
            let stop = m.map_stop(root, vaddr as int, left as int, flags, mapper);
            let after = done.mem;
            &&& after.wf()
            &&& after.tree(root)
            &&& vaddr <= stop <= vaddr + left
            &&& done.result is Ok <==> stop == vaddr + left
            &&& mapped_up_to(m, after, root, vaddr as int, left as int, stop, flags, mapper)
        }),
    decreases left,
{
    let done = m.map_run(root, vaddr as int, left as int, flags, mapper);
    let stop = m.map_stop(root, vaddr as int, left as int, flags, mapper);
    let after = done.mem;
    if left > 0 {
        let paddr = mapper.map_fn(vaddr);
        let size = page_size_for(vaddr, paddr, left as int, flags);
        let page = m.map_page(root, vaddr as int, size, paddr, flags);
        lemma_map_step(m, root, vaddr, left, flags, mapper);
        law_map_page(m, root, vaddr as int, size, paddr, flags);
        if page.result is Ok {
            let next = (vaddr + size.bytes()) as usize;
            law_map_run(page.mem, root, next, (left - size.bytes()) as usize, flags, mapper);
            lemma_mapped_so_far(m, page.mem, after, root, vaddr as int, size, stop);
            assert forall|va: int| vaddr <= va < stop implies {
                let size = region_page(vaddr as int, left as int, flags, mapper, va);
                let e = region_entry::<PTE>(vaddr as int, left as int, flags, mapper, va);
                is_page(e, size) ==> #[trigger] after.leaf(root, va) == Ok::<
                    (PTE, PageSize),
                    PagingError,
                >((e, size))
            } by {
                lemma_entry_step::<PTE>(vaddr, left, flags, mapper, va);
                if va < next {
                    assert(m.leaf(root, va) == m.leaf(root, va));
                    assert(page.mem.leaf(root, va) == page.mem.leaf(root, va));
                }
            }
        }
    }
}

/// Unmapping a region, step by step: up to where unmapping stopped all was mapped before and
/// nothing is mapped any more; every other address is translated as before. Unmapping stops at the
/// end of the region, or before it at an address that is not mapped; that address was not mapped
/// before either, unless the region is longer than the reach and met itself again.
pub proof fn law_unmap_run<PTE: GenericPTE>(m: Memory<PTE>, root: int, vaddr: usize, left: usize)
    requires
        m.wf(),
        m.tree(root),
        vaddr + left <= usize::MAX,
        m.unmaps_whole_pages(root, vaddr as int, left as int),
    ensures
        ({
            let done = m.unmap_run(root, vaddr as int, left as int);
            let stop = m.unmap_stop(root, vaddr as int, left as int);
            let after = done.mem;
            &&& after.wf()
            &&& after.tree(root)
            &&& vaddr <= stop <= vaddr + left
            &&& match done.result {
                Ok(_) => stop == vaddr + left,
                Err(e) => {
                    &&& e == PagingError::NotMapped
                    &&& stop < vaddr + left
                    &&& after.leaf(root, stop) == Err::<(PTE, PageSize), PagingError>(e)
                    &&& left <= reach() ==> m.leaf(root, stop) == Err::<
                        (PTE, PageSize),
                        PagingError,
                    >(e)
                },
            }
            &&& unmapped_up_to(m, after, root, vaddr as int, stop)
        }),
    decreases left,
{
    let done = m.unmap_run(root, vaddr as int, left as int);
    let stop = m.unmap_stop(root, vaddr as int, left as int);
    let after = done.mem;
    if left > 0 {
        let page = m.unmap_page(root, vaddr as int);
        lemma_unmap_step(m, root, vaddr, left);
        law_unmap_page(m, root, vaddr as int);
        law_leaf_error(m, root, vaddr as int);
        if let Ok((_, size)) = page.result {
            let next = (vaddr + size.bytes()) as usize;
            law_unmap_run(page.mem, root, next, (left - size.bytes()) as usize);
            assert forall|va: int| 0 <= va implies (if in_span(va, vaddr as int, stop) {
                #[trigger] after.leaf(root, va) == Err::<(PTE, PageSize), PagingError>(
                    PagingError::NotMapped,
                )
            } else {
                after.leaf(root, va) == m.leaf(root, va)
            }) by {
                lemma_page_span(va, vaddr as int, size);
                lemma_span_split(va, vaddr as int, next as int, stop);
                assert(page.mem.leaf(root, va) == page.mem.leaf(root, va));
            }
            assert forall|va: int| 0 <= va && in_span(va, vaddr as int, stop) implies #[trigger] m.leaf(
                root,
                va,
            ) is Ok by {
                lemma_page_span(va, vaddr as int, size);
                lemma_span_split(va, vaddr as int, next as int, stop);
                law_leaf_page(m, root, vaddr as int, va);
                if !same_page(va, vaddr as int, size) {
                    assert(page.mem.leaf(root, va) == m.leaf(root, va));
                    assert(in_span(va, next as int, stop));
                    assert(page.mem.leaf(root, va) is Ok);
                }
            }
            if done.result is Err && left <= reach() {
                assert(!in_span(stop, vaddr as int, stop));
                assert(after.leaf(root, stop) == m.leaf(root, stop));
            }
        }
    }
}

/// A region that is mapped with the flags of memory is mapped by pages.
pub proof fn law_maps_pages<PTE: GenericPTE>(
    vaddr: int,
    left: int,
    flags: MemFlags,
    mapper: Mapper,
)
    requires
        region_flags::<PTE>(flags),
    ensures
        maps_pages::<PTE>(vaddr, left, flags, mapper),
    decreases left,
{
    if left >= PAGE_SIZE {
        let paddr = mapper.map_fn(vaddr as usize);
        let size = page_size_for(vaddr as usize, paddr, left, flags);
        PTE::law_zero();
        PTE::zero().with_addr(page_start(paddr, size)).law_set_flags(page_flags(size, flags));
        law_maps_pages::<PTE>(vaddr + size.bytes(), left - size.bytes(), flags, mapper);
    }
}

/// What a region is mapped by cannot be mistaken for a table if it is pages, or if the region has
/// no huge pages.
pub proof fn law_maps_no_table<PTE: GenericPTE>(
    vaddr: int,
    left: int,
    flags: MemFlags,
    mapper: Mapper,
)
    requires
        maps_pages::<PTE>(vaddr, left, flags, mapper) || flags.contains(MemFlags::NO_HUGEPAGES)
            || left < PageSize::Size2M.bytes(),
    ensures
        maps_no_table::<PTE>(vaddr, left, flags, mapper),
    decreases left,
{
    if left >= PAGE_SIZE {
        let size = page_size_for(vaddr as usize, mapper.map_fn(vaddr as usize), left, flags);
        law_maps_no_table::<PTE>(vaddr + size.bytes(), left - size.bytes(), flags, mapper);
    }
}

impl<PTE: GenericPTE> Memory<PTE> {
    /// The region is mapped by whole pages, one behind the other.
    pub open spec fn covered(self, root: int, vaddr: int, left: int) -> bool
        decreases left,
    {
        if left <= 0 {
            true
        } else {
            match self.leaf(root, vaddr) {
                Ok((_, size)) => if size.bytes() > left || vaddr % size.bytes() as int != 0 {
                    false
                } else {
                    self.covered(root, vaddr + size.bytes(), left - size.bytes())
                },
                Err(_) => false,
            }
        }
    }
}

/// A region that was mapped is mapped by whole pages, and is no longer than the reach.
proof fn lemma_map_covers<PTE: GenericPTE>(
    m: Memory<PTE>,
    root: int,
    vaddr: usize,
    left: usize,
    flags: MemFlags,
    mapper: Mapper,
)
    requires
        m.wf(),
        m.tree(root),
        vaddr % PAGE_SIZE == 0,
        left % PAGE_SIZE == 0,
        vaddr + left <= usize::MAX,
        maps_pages::<PTE>(vaddr as int, left as int, flags, mapper),
        m.map_run(root, vaddr as int, left as int, flags, mapper).result is Ok,
    ensures
        m.map_run(root, vaddr as int, left as int, flags, mapper).mem.covered(
            root,
            vaddr as int,
            left as int,
        ),
        left <= reach(),
    decreases left,
{
    law_maps_no_table::<PTE>(vaddr as int, left as int, flags, mapper);
    let after = m.map_run(root, vaddr as int, left as int, flags, mapper).mem;
    if left > 0 {
        let paddr = mapper.map_fn(vaddr);
        let size = page_size_for(vaddr, paddr, left as int, flags);
        let page = m.map_page(root, vaddr as int, size, paddr, flags);
        let e = page_entry::<PTE>(size, paddr, flags);
        lemma_map_step(m, root, vaddr, left, flags, mapper);
        law_map_page(m, root, vaddr as int, size, paddr, flags);
        let next = (vaddr + size.bytes()) as usize;
        let rest = (left - size.bytes()) as usize;
        law_map_run(page.mem, root, next, rest, flags, mapper);
        lemma_map_covers(page.mem, root, next, rest, flags, mapper);
        lemma_page_span(vaddr as int, vaddr as int, size);
        assert(m.leaf(root, vaddr as int) == Err::<(PTE, PageSize), PagingError>(
            PagingError::NotMapped,
        ));
        assert(page.mem.leaf(root, vaddr as int) == Ok::<(PTE, PageSize), PagingError>((e, size)));
        assert(after.leaf(root, vaddr as int) == page.mem.leaf(root, vaddr as int));
    }
}

proof fn lemma_covered_same<PTE: GenericPTE>(
    m: Memory<PTE>,
    other: Memory<PTE>,
    root: int,
    vaddr: int,
    left: int,
)
    requires
        m.covered(root, vaddr, left),
        forall|va: int|
            vaddr <= va < vaddr + left ==> #[trigger] other.leaf(root, va) == m.leaf(root, va),
    ensures
        other.covered(root, vaddr, left),
    decreases left,
{
    if left > 0 {
        assert(other.leaf(root, vaddr) == m.leaf(root, vaddr));
        if let Ok((_, size)) = m.leaf(root, vaddr) {
            lemma_covered_same(m, other, root, vaddr + size.bytes(), left - size.bytes());
        }
    }
}

/// A region that is mapped by whole pages can be unmapped.
pub proof fn law_unmap_covered<PTE: GenericPTE>(
    m: Memory<PTE>,
    root: int,
    vaddr: usize,
    left: usize,
)
    requires
        m.wf(),
        m.tree(root),
        vaddr + left <= usize::MAX,
        left <= reach(),
        m.covered(root, vaddr as int, left as int),
    ensures
        m.unmaps_whole_pages(root, vaddr as int, left as int),
        m.unmap_run(root, vaddr as int, left as int).result is Ok,
    decreases left,
{
    if left > 0 {
        law_unmap_page(m, root, vaddr as int);
        let page = m.unmap_page(root, vaddr as int);
        if let Ok((_, size)) = page.result {
            let next = (vaddr + size.bytes()) as usize;
            let rest = (left - size.bytes()) as usize;
            assert forall|va: int| next <= va < next + rest implies #[trigger] page.mem.leaf(
                root,
                va,
            ) == m.leaf(root, va) by {
                lemma_page_span(va, vaddr as int, size);
            }
            lemma_covered_same(m, page.mem, root, next as int, rest as int);
            law_unmap_covered(page.mem, root, next, rest);
        }
    }
}

/// What mapping a region does, unmapping it undoes: every address is translated as it was before.
pub proof fn law_map_unmap<PTE: GenericPTE>(
    m: Memory<PTE>,
    root: int,
    start: usize,
    size: usize,
    flags: MemFlags,
    mapper: Mapper,
)
    requires
        m.wf(),
        m.tree(root),
        start % PAGE_SIZE == 0,
        size % PAGE_SIZE == 0,
        start + size <= usize::MAX,
        maps_pages::<PTE>(start as int, size as int, flags, mapper),
        m.map_run(root, start as int, size as int, flags, mapper).result is Ok,
    ensures
        ({
            let mapped = m.map_run(root, start as int, size as int, flags, mapper).mem;
            let undone = mapped.unmap_run(root, start as int, size as int);
            &&& mapped.unmaps_whole_pages(root, start as int, size as int)
            &&& undone.result is Ok
            &&& forall|va: int|
                0 <= va ==> #[trigger] undone.mem.leaf(root, va) == m.leaf(root, va)
        }),
{
    law_maps_no_table::<PTE>(start as int, size as int, flags, mapper);
    law_map_run(m, root, start, size, flags, mapper);
    lemma_map_covers(m, root, start, size, flags, mapper);
    let mapped = m.map_run(root, start as int, size as int, flags, mapper).mem;
    let undone = mapped.unmap_run(root, start as int, size as int);
    law_unmap_covered(mapped, root, start, size);
    law_unmap_run(mapped, root, start, size);
    assert forall|va: int| 0 <= va implies #[trigger] undone.mem.leaf(root, va) == m.leaf(
        root,
        va,
    ) by {
        assert(mapped.leaf(root, va) == mapped.leaf(root, va));
        assert(m.leaf(root, va) == m.leaf(root, va));
    }
}

} // verus!
