//! What holds of every page table.
use vstd::prelude::*;

use crate::addr::{PhysAddr, PAGE_SIZE};
use crate::change::{maps_no_table, page_entry, page_size_for};
use crate::entry::GenericPTE;
use crate::error::PagingError;
use crate::flags::MemFlags;
use crate::lemmas::{lemma_indices, lemma_offset_kept, lemma_same_page};
use crate::memory::{Memory, ROOT_FRAMES};
use crate::model::{is_table, reach, same_page, Slot};
use crate::page::{index1, index2, index3, PageSize};
use crate::region::Mapper;

verus! {

/// A new page table maps nothing, and its root is its only table.
pub proof fn law_new<PTE: GenericPTE>(m: Memory<PTE>, root: int)
    requires
        m.wf(),
        m.free_run(root, ROOT_FRAMES as int),
    ensures
        ({
            let after = m.allocate(root, ROOT_FRAMES as int);
            &&& after.wf()
            &&& after.tree(root)
            &&& forall|t: int| #[trigger] after.owns(root, t) <==> t == root
            &&& forall|vaddr: int| #[trigger]
                after.leaf(root, vaddr) == Err::<(PTE, PageSize), PagingError>(
                    PagingError::NotMapped,
                )
        }),
{
    reveal(Memory::tree);
    reveal(Memory::leaf);
    PTE::law_zero();
    m.lemma_free_run(root, ROOT_FRAMES as int, 0);
    let after = m.allocate(root, ROOT_FRAMES as int);
    assert forall|i: int| 0 <= i < 512 implies #[trigger] after.entry(root, i) == PTE::zero() by {}
    assert forall|i: int| !#[trigger] after.has2(root, i) by {}
    assert forall|vaddr: int| #[trigger] after.leaf(root, vaddr) == Err::<
        (PTE, PageSize),
        PagingError,
    >(PagingError::NotMapped) by {
        assert(after.entry(root, index3(vaddr)) == PTE::zero());
    }
}

/// A clone translates every address as its original does, and the original still does so.
pub proof fn law_clone_root<PTE: GenericPTE>(m: Memory<PTE>, src: int, dst: int)
    requires
        m.wf(),
        m.tree(src),
        m.free_run(dst, ROOT_FRAMES as int),
    ensures
        ({
            let after = m.clone_root(src, dst);
            &&& after.wf()
            &&& after.tree(src)
            &&& after.tree(dst)
            &&& forall|vaddr: int| #[trigger] after.leaf(dst, vaddr) == m.leaf(src, vaddr)
            &&& forall|vaddr: int| #[trigger] after.leaf(src, vaddr) == m.leaf(src, vaddr)
        }),
{
    reveal(Memory::tree);
    reveal(Memory::leaf);
    m.lemma_free_run(dst, ROOT_FRAMES as int, 0);
    let after = m.clone_root(src, dst);
    assert forall|t: int| m.live(t) implies #[trigger] after.tables[t] == m.tables[t] && after.live(
        t,
    ) && t != dst by {
        if dst <= t < dst + ROOT_FRAMES * PAGE_SIZE {
            assert(m.tables.contains_key(t) && !m.allocated.contains(t));
        }
    }
    assert(m.live(src));
    assert forall|i: int| #[trigger] after.has2(src, i) == m.has2(src, i) by {}
    assert forall|i: int| #[trigger] after.has2(dst, i) == m.has2(src, i) by {}
    assert forall|i: int| #[trigger] m.has2(src, i) implies m.live(m.t2(src, i)) by {}
    assert forall|i: int, j: int| #[trigger] after.has1(src, i, j) == m.has1(src, i, j) by {
        assert(after.has2(src, i) == m.has2(src, i));
    }
    assert forall|i: int, j: int| #[trigger] after.has1(dst, i, j) == m.has1(src, i, j) by {
        assert(after.has2(dst, i) == m.has2(src, i));
    }
    assert forall|i: int, j: int| #[trigger] m.has1(src, i, j) implies m.live(
        m.t1(src, i, j),
    ) by {}
    assert forall|vaddr: int| #[trigger] after.leaf(dst, vaddr) == m.leaf(src, vaddr) by {
        assert(m.has2(src, index3(vaddr)) == after.has2(dst, index3(vaddr)));
        assert(m.has1(src, index3(vaddr), index2(vaddr)) == after.has1(
            dst,
            index3(vaddr),
            index2(vaddr),
        ));
    }
    assert forall|vaddr: int| #[trigger] after.leaf(src, vaddr) == m.leaf(src, vaddr) by {
        assert(m.has2(src, index3(vaddr)) == after.has2(src, index3(vaddr)));
        assert(m.has1(src, index3(vaddr), index2(vaddr)) == after.has1(
            src,
            index3(vaddr),
            index2(vaddr),
        ));
    }
}

/// Making the tables above a page changes no translation.
pub proof fn law_entry_or_create<PTE: GenericPTE>(
    m: Memory<PTE>,
    root: int,
    vaddr: int,
    size: PageSize,
)
    requires
        m.wf(),
        m.tree(root),
    ensures
        ({
            let done = m.entry_or_create(root, vaddr, size);
            let after = done.mem;
            let i = index3(vaddr);
            let j = index2(vaddr);
            &&& after.wf()
            &&& after.tree(root)
            &&& forall|va: int| #[trigger] after.leaf(root, va) == m.leaf(root, va)
            &&& done.result matches Ok(slot) ==> match size {
                PageSize::Size1G => slot == Slot { table: root, index: i },
                PageSize::Size2M => after.has2(root, i) && slot == Slot {
                    table: after.t2(root, i),
                    index: j,
                },
                PageSize::Size4K => after.has1(root, i, j) && slot == Slot {
                    table: after.t1(root, i, j),
                    index: index1(vaddr),
                },
            }
        }),
{
    reveal(Memory::entry_or_create);
    let i = index3(vaddr);
    let j = index2(vaddr);
    if size != PageSize::Size1G {
        let s3 = Slot { table: root, index: i };
        let second = m.next_or_create(s3);
        if m.at(s3) == PTE::zero() {
            m.lemma_fit(1);
            if let Some(p) = m.first_fit(1) {
                m.lemma_link3(root, i, p);
            }
        }
        if let Ok(p2) = second.result {
            assert(second.mem.has2(root, i) && second.mem.t2(root, i) == p2);
            if size != PageSize::Size2M {
                let s2 = Slot { table: p2, index: j };
                if second.mem.at(s2) == PTE::zero() {
                    second.mem.lemma_fit(1);
                    if let Some(p) = second.mem.first_fit(1) {
                        second.mem.lemma_link2(root, i, j, p);
                    }
                }
            }
        }
    }
}

/// A page that was mapped is translated to its frame, and was not mapped before; every other
/// address is translated as before. A page that could not be mapped leaves every translation as
/// it was.
pub proof fn law_map_page<PTE: GenericPTE>(
    m: Memory<PTE>,
    root: int,
    vaddr: int,
    size: PageSize,
    paddr: PhysAddr,
    flags: MemFlags,
)
    requires
        m.wf(),
        m.tree(root),
        0 <= vaddr,
        size == PageSize::Size4K || !is_table(page_entry::<PTE>(size, paddr, flags)),
    ensures
        ({
            let done = m.map_page(root, vaddr, size, paddr, flags);
            let after = done.mem;
            let e = page_entry::<PTE>(size, paddr, flags);
            &&& after.wf()
            &&& after.tree(root)
            &&& match done.result {
                Ok(slot) => {
                    &&& after.at(slot) == e
                    &&& forall|va: int|
                        0 <= va && !same_page(va, vaddr, size) ==> #[trigger] after.leaf(root, va)
                            == m.leaf(root, va)
                    &&& forall|va: int|
                        0 <= va && same_page(va, vaddr, size) ==> {
                            &&& #[trigger] m.leaf(root, va) == Err::<(PTE, PageSize), PagingError>(
                                PagingError::NotMapped,
                            )
                            &&& e != PTE::zero() && (size == PageSize::Size4K || e.huge())
                                ==> after.leaf(root, va) == Ok::<(PTE, PageSize), PagingError>(
                                (e, size),
                            )
                        }
                },
                Err(_) => forall|va: int| #[trigger] after.leaf(root, va) == m.leaf(root, va),
            }
        }),
{
    reveal(Memory::map_page);
    reveal(Memory::leaf);
    let i = index3(vaddr);
    let j = index2(vaddr);
    let x = index1(vaddr);
    let path = m.entry_or_create(root, vaddr, size);
    let done = m.map_page(root, vaddr, size, paddr, flags);
    let e = page_entry::<PTE>(size, paddr, flags);
    law_entry_or_create(m, root, vaddr, size);
    PTE::law_zero();
    if let Ok(slot) = done.result {
        match size {
            PageSize::Size1G => path.mem.lemma_put3(root, i, e),
            PageSize::Size2M => path.mem.lemma_put2(root, i, j, e),
            PageSize::Size4K => path.mem.lemma_put1(root, i, j, x, e),
        }
        assert forall|va: int| 0 <= va && !same_page(va, vaddr, size) implies #[trigger] done.mem.leaf(
            root,
            va,
        ) == m.leaf(root, va) by {
            lemma_same_page(va, vaddr);
            assert(path.mem.leaf(root, va) == m.leaf(root, va));
        }
        assert forall|va: int| 0 <= va && same_page(va, vaddr, size) implies {
            &&& #[trigger] m.leaf(root, va) == Err::<(PTE, PageSize), PagingError>(
                PagingError::NotMapped,
            )
            &&& e != PTE::zero() && (size == PageSize::Size4K || e.huge()) ==> done.mem.leaf(
                root,
                va,
            ) == Ok::<(PTE, PageSize), PagingError>((e, size))
        } by {
            lemma_same_page(va, vaddr);
            assert(path.mem.leaf(root, va) == m.leaf(root, va));
        }
    }
}

/// A page whose mapping was taken back is not mapped; every other address is translated as
/// before. Where nothing was mapped, nothing changes.
pub proof fn law_unmap_page<PTE: GenericPTE>(m: Memory<PTE>, root: int, vaddr: int)
    requires
        m.wf(),
        m.tree(root),
        0 <= vaddr,
    ensures
        ({
            let done = m.unmap_page(root, vaddr);
            let after = done.mem;
            &&& after.wf()
            &&& after.tree(root)
            &&& match done.result {
                Ok((paddr, size)) => {
                    &&& m.leaf(root, vaddr) matches Ok((e, s)) && e.target() == paddr && s == size
                    &&& forall|va: int|
                        0 <= va && !same_page(va, vaddr, size) ==> #[trigger] after.leaf(root, va)
                            == m.leaf(root, va)
                    &&& forall|va: int|
                        0 <= va && same_page(va, vaddr, size) ==> #[trigger] after.leaf(root, va)
                            == Err::<(PTE, PageSize), PagingError>(PagingError::NotMapped)
                },
                Err(e) => {
                    &&& m.leaf(root, vaddr) == Err::<(PTE, PageSize), PagingError>(e)
                    &&& after == m
                },
            }
        }),
{
    reveal(Memory::unmap_page);
    reveal(Memory::leaf);
    let done = m.unmap_page(root, vaddr);
    PTE::law_zero();
    if let Ok((_, size)) = done.result {
        lemma_located_put(m, root, vaddr, PTE::zero());
    }
}

/// A page whose mapping was changed is translated by the new mapping; every other address is
/// translated as before. The page table stays one unless a huge page was made a pointer to a table.
pub proof fn law_update<PTE: GenericPTE>(
    m: Memory<PTE>,
    root: int,
    vaddr: int,
    paddr: PhysAddr,
    flags: MemFlags,
)
    requires
        m.wf(),
        m.tree(root),
        0 <= vaddr,
    ensures
        ({
            let done = m.update_page(root, vaddr, paddr, flags);
            let after = done.mem;
            &&& after.wf()
            &&& m.update_keeps_tree(root, vaddr, paddr, flags) ==> after.tree(root)
            &&& PTE::terminal_flags(flags) ==> m.update_keeps_tree(root, vaddr, paddr, flags)
            &&& match done.result {
                Ok(size) => {
                    &&& forall|va: int|
                        0 <= va && !same_page(va, vaddr, size) ==> #[trigger] after.leaf(root, va)
                            == m.leaf(root, va)
                    &&& PTE::terminal_flags(flags) || size == PageSize::Size4K && (forall|e: PTE|
                        #[trigger] e.with_flags(flags) != PTE::zero()) ==> forall|va: int|
                        0 <= va && same_page(va, vaddr, size) ==> {
                            #[trigger] after.leaf(root, va) matches Ok((e, s)) && {
                                &&& s == size
                                &&& PTE::holds_addr(paddr) ==> e.target() == paddr
                                &&& e.rights() == PTE::kept_flags(flags)
                            }
                        }
                },
                Err(e) => {
                    &&& m.leaf(root, vaddr) == Err::<(PTE, PageSize), PagingError>(e)
                    &&& after == m
                },
            }
        }),
{
    PTE::law_zero();
    match m.locate(root, vaddr) {
        Ok((slot, size)) => {
            let old_entry = m.at(slot);
            let e = old_entry.with_addr(paddr).with_flags(flags);
            old_entry.law_set_addr(paddr);
            old_entry.with_addr(paddr).law_set_flags(flags);
            lemma_put_elsewhere(m, root, vaddr, e);
            if size == PageSize::Size4K || !is_table(e) {
                lemma_located_put(m, root, vaddr, e);
            }
        },
        Err(_) => {
            reveal(Memory::leaf);
        },
    }
}

/// Exchanging the entry that decides on an address changes nothing outside its page.
proof fn lemma_put_elsewhere<PTE: GenericPTE>(m: Memory<PTE>, root: int, vaddr: int, e: PTE)
    requires
        m.wf(),
        m.tree(root),
        0 <= vaddr,
        m.locate(root, vaddr) is Ok,
    ensures
        ({
            let (slot, size) = m.locate(root, vaddr)->Ok_0;
            let after = m.put(slot, e);
            &&& after.wf()
            &&& forall|va: int|
                0 <= va && !same_page(va, vaddr, size) ==> #[trigger] after.leaf(root, va)
                    == m.leaf(root, va)
        }),
{
    reveal(Memory::tree);
    reveal(Memory::leaf);
    let (slot, size) = m.locate(root, vaddr)->Ok_0;
    let after = m.put(slot, e);
    let i = index3(vaddr);
    let j = index2(vaddr);
    m.lemma_located(root, vaddr);
    if size != PageSize::Size1G {
        assert(m.has2(root, i));
        assert(m.t2(root, i) != root);
    }
    if size == PageSize::Size4K {
        assert(m.has1(root, i, j));
        assert(m.t1(root, i, j) != root);
    }
    assert forall|va: int| 0 <= va && !same_page(va, vaddr, size) implies #[trigger] after.leaf(
        root,
        va,
    ) == m.leaf(root, va) by {
        lemma_same_page(va, vaddr);
        let k = index3(va);
        let l = index2(va);
        assert(after.entry(root, k) == m.entry(root, k));
        if m.has2(root, k) {
            assert(after.entry(m.t2(root, k), l) == m.entry(m.t2(root, k), l));
        }
        if m.has1(root, k, l) {
            assert(after.entry(m.t1(root, k, l), index1(va)) == m.entry(
                m.t1(root, k, l),
                index1(va),
            ));
        }
    }
}

/// The three indices of an address and the place in its base page make up the address, as far as
/// the tables tell addresses apart.
pub proof fn law_indices(vaddr: int)
    requires
        0 <= vaddr,
    ensures
        0 <= index3(vaddr) < 512,
        0 <= index2(vaddr) < 512,
        0 <= index1(vaddr) < 512,
        vaddr % reach() == index3(vaddr) * 0x4000_0000 + index2(vaddr) * 0x20_0000 + index1(vaddr)
            * 0x1000 + vaddr % 0x1000,
{
    lemma_indices(vaddr);
    lemma_offset_kept(vaddr, PageSize::Size4K);
    let r = vaddr % reach();
    assert(r == r / 0x1000 * 0x1000 + r % 0x1000);
}

/// An address that is not translated is not mapped: there is no other reason.
pub proof fn law_leaf_error<PTE: GenericPTE>(m: Memory<PTE>, root: int, vaddr: int)
    ensures
        m.leaf(root, vaddr) matches Err(e) ==> e == PagingError::NotMapped,
{
    reveal(Memory::leaf);
}

/// All addresses of a page are translated by the same entry.
pub proof fn law_leaf_page<PTE: GenericPTE>(m: Memory<PTE>, root: int, vaddr: int, va: int)
    requires
        0 <= vaddr,
        0 <= va,
    ensures
        m.leaf(root, vaddr) matches Ok((_, size)) ==> same_page(va, vaddr, size) ==> m.leaf(root, va)
            == m.leaf(root, vaddr),
{
    reveal(Memory::leaf);
    lemma_same_page(va, vaddr);
}

/// Addresses that differ by the reach of the tables are translated by the same entry.
pub proof fn law_reach<PTE: GenericPTE>(m: Memory<PTE>, root: int, a: int, b: int)
    requires
        0 <= a,
        0 <= b,
        a % reach() == b % reach(),
    ensures
        m.leaf(root, a) == m.leaf(root, b),
{
    reveal(Memory::leaf);
    lemma_same_page(a, b);
}

/// The page that a region is mapped by next starts where it should, and leaves whole pages.
pub(crate) proof fn lemma_page_fits(vaddr: usize, paddr: PhysAddr, left: usize, flags: MemFlags)
    requires
        vaddr % PAGE_SIZE == 0,
        left % PAGE_SIZE == 0,
        0 < left,
    ensures
        ({
            let size = page_size_for(vaddr, paddr, left as int, flags);
            &&& size.bytes() <= left
            &&& vaddr % size.bytes() == 0
            &&& (vaddr + size.bytes()) % PAGE_SIZE as int == 0
            &&& (left - size.bytes()) % PAGE_SIZE as int == 0
        }),
{
}

/// One page of a region is mapped, and the rest of it is still to be mapped.
pub(crate) proof fn lemma_map_step<PTE: GenericPTE>(
    m: Memory<PTE>,
    root: int,
    vaddr: usize,
    left: usize,
    flags: MemFlags,
    mapper: Mapper,
)
    requires
        m.wf(),
        m.tree(root),
        vaddr % PAGE_SIZE == 0,
        left % PAGE_SIZE == 0,
        0 < left,
        maps_no_table::<PTE>(vaddr as int, left as int, flags, mapper),
    ensures
        ({
            let paddr = mapper.map_fn(vaddr);
            let size = page_size_for(vaddr, paddr, left as int, flags);
            let page = m.map_page(root, vaddr as int, size, paddr, flags);
            let rest = page.mem.map_run(
                root,
                vaddr + size.bytes(),
                left - size.bytes(),
                flags,
                mapper,
            );
            let whole = m.map_run(root, vaddr as int, left as int, flags, mapper);
            &&& size.bytes() <= left
            &&& vaddr % size.bytes() == 0
            &&& (vaddr + size.bytes()) % PAGE_SIZE as int == 0
            &&& (left - size.bytes()) % PAGE_SIZE as int == 0
            &&& page.mem.wf()
            &&& page.mem.tree(root)
            &&& size == PageSize::Size4K || !is_table(page_entry::<PTE>(size, paddr, flags))
            &&& maps_no_table::<PTE>(vaddr + size.bytes(), left - size.bytes(), flags, mapper)
            &&& match page.result {
                Err(e) => {
                    &&& whole.mem == page.mem
                    &&& whole.result == Err::<(), PagingError>(e)
                    &&& whole.taken == page.taken
                },
                Ok(_) => {
                    &&& whole.mem == rest.mem
                    &&& whole.result == rest.result
                    &&& whole.taken == page.taken + rest.taken
                },
            }
        }),
{
    let paddr = mapper.map_fn(vaddr);
    let size = page_size_for(vaddr, paddr, left as int, flags);
    lemma_page_fits(vaddr, paddr, left, flags);
    law_map_page(m, root, vaddr as int, size, paddr, flags);
}

/// The mapping of one page of a region is taken back, and the rest of it is still to be.
pub(crate) proof fn lemma_unmap_step<PTE: GenericPTE>(
    m: Memory<PTE>,
    root: int,
    vaddr: usize,
    left: usize,
)
    requires
        m.wf(),
        m.tree(root),
        0 < left,
        m.unmaps_whole_pages(root, vaddr as int, left as int),
    ensures
        ({
            let page = m.unmap_page(root, vaddr as int);
            let whole = m.unmap_run(root, vaddr as int, left as int);
            &&& page.mem.wf()
            &&& page.mem.tree(root)
            &&& match page.result {
                Err(e) => whole.mem == page.mem && whole.result == Err::<(), PagingError>(e),
                Ok((_, size)) => {
                    &&& size.bytes() <= left
                    &&& page.mem.unmaps_whole_pages(
                        root,
                        vaddr + size.bytes(),
                        left - size.bytes(),
                    )
                    &&& whole == page.mem.unmap_run(
                        root,
                        vaddr + size.bytes(),
                        left - size.bytes(),
                    )
                },
            }
        }),
{
    law_unmap_page(m, root, vaddr as int);
}

/// The entry that decides on an address is exchanged for another one.
proof fn lemma_located_put<PTE: GenericPTE>(m: Memory<PTE>, root: int, vaddr: int, e: PTE)
    requires
        m.wf(),
        m.tree(root),
        0 <= vaddr,
        m.locate(root, vaddr) is Ok,
        m.locate(root, vaddr)->Ok_0.1 == PageSize::Size4K || !is_table(e),
    ensures
        ({
            let (slot, size) = m.locate(root, vaddr)->Ok_0;
            let after = m.put(slot, e);
            &&& after.wf()
            &&& after.tree(root)
            &&& forall|va: int|
                0 <= va && !same_page(va, vaddr, size) ==> #[trigger] after.leaf(root, va)
                    == m.leaf(root, va)
            &&& e != PTE::zero() && (size == PageSize::Size4K || e.huge()) ==> forall|va: int|
                0 <= va && same_page(va, vaddr, size) ==> #[trigger] after.leaf(root, va) == Ok::<
                    (PTE, PageSize),
                    PagingError,
                >((e, size))
            &&& e == PTE::zero() ==> forall|va: int|
                0 <= va && same_page(va, vaddr, size) ==> #[trigger] after.leaf(root, va) == Err::<
                    (PTE, PageSize),
                    PagingError,
                >(PagingError::NotMapped)
        }),
{
    let i = index3(vaddr);
    let j = index2(vaddr);
    let x = index1(vaddr);
    let (slot, size) = m.locate(root, vaddr)->Ok_0;
    reveal(Memory::leaf);
    PTE::law_zero();
    match size {
        PageSize::Size1G => m.lemma_put3(root, i, e),
        PageSize::Size2M => {
            assert(m.has2(root, i));
            m.lemma_put2(root, i, j, e)
        },
        PageSize::Size4K => {
            assert(m.has1(root, i, j));
            m.lemma_put1(root, i, j, x, e)
        },
    }
    let after = m.put(slot, e);
    assert forall|va: int| 0 <= va && !same_page(va, vaddr, size) implies #[trigger] after.leaf(
        root,
        va,
    ) == m.leaf(root, va) by {
        lemma_same_page(va, vaddr);
    }
    if e != PTE::zero() && (size == PageSize::Size4K || e.huge()) {
        assert forall|va: int| 0 <= va && same_page(va, vaddr, size) implies #[trigger] after.leaf(
            root,
            va,
        ) == Ok::<(PTE, PageSize), PagingError>((e, size)) by {
            lemma_same_page(va, vaddr);
        }
    }
    if e == PTE::zero() {
        assert forall|va: int| 0 <= va && same_page(va, vaddr, size) implies #[trigger] after.leaf(
            root,
            va,
        ) == Err::<(PTE, PageSize), PagingError>(PagingError::NotMapped) by {
            lemma_same_page(va, vaddr);
        }
    }
}

} // verus!
