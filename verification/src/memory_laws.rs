//! What the operations leave in memory, entry by entry.
use vstd::prelude::*;

use crate::addr::{PhysAddr, PAGE_SIZE};
use crate::bit_laws::law_mapper;
use crate::change::maps_no_table;
use crate::entry::GenericPTE;
use crate::error::PagingError;
use crate::flags::MemFlags;
use crate::laws::{lemma_map_step, lemma_unmap_step};
use crate::memory::Memory;
use crate::model::Slot;
use crate::page::{index1, index2, index3, PageSize};
use crate::plain_laws::{goes_to, law_single_frame};
use crate::region::Mapper;

verus! {

/// The memory with one entry of one table exchanged.
pub open spec fn written<PTE: GenericPTE>(m: Memory<PTE>, t: int, x: int, e: PTE) -> Memory<PTE> {
    Memory { tables: m.tables.insert(t, m.tables[t].update(x, e)), allocated: m.allocated }
}

/// The memory with entry `x` of table `t` pointing to an empty table in the first free frame, or as
/// it is if there is none.
pub open spec fn linked<PTE: GenericPTE>(m: Memory<PTE>, t: int, x: int) -> Memory<PTE> {
    match m.first_fit(1) {
        Some(p) => written(
            Memory {
                tables: m.tables.insert(p, Seq::new(512, |k: int| PTE::zero())),
                allocated: m.allocated.insert(p),
            },
            t,
            x,
            PTE::zero().with_table(p as usize),
        ),
        None => m,
    }
}

/// What mapping a page leaves in memory. Where an entry on the way to it is unused, it is made to
/// point to an empty table, as long as frames last. If the page is mapped, its own entry, which was
/// unused, has its address set to the start of the frame and its flags set; a huge page does not
/// take on the flag that rules huge pages out. Nothing else is changed.
pub proof fn law_map_page_memory<PTE: GenericPTE>(
    m: Memory<PTE>,
    root: int,
    va: int,
    size: PageSize,
    paddr: PhysAddr,
    flags: MemFlags,
)
    requires
        m.wf(),
        m.tree(root),
        0 <= va,
    ensures
        ({
            let done = m.map_page(root, va, size, paddr, flags);
            let x3 = (va / 0x4000_0000) % 512;
            let x2 = (va / 0x20_0000) % 512;
            let x1 = (va / 0x1000) % 512;
            let plain = MemFlags { bits: flags.bits & !0x100u64 };
            match size {
                PageSize::Size1G => {
                    let frame = (paddr - paddr % 0x4000_0000) as usize;
                    let e = PTE::zero().with_addr(frame).with_flags(plain);
                    if m.tables[root][x3] == PTE::zero() {
                        done.result is Ok && done.mem == written(m, root, x3, e)
                    } else {
                        done.result is Err && done.mem == m
                    }
                },
                PageSize::Size2M => {
                    let frame = (paddr - paddr % 0x20_0000) as usize;
                    let e = PTE::zero().with_addr(frame).with_flags(plain);
                    let m2 = if m.tables[root][x3] == PTE::zero() {
                        linked(m, root, x3)
                    } else {
                        m
                    };
                    let e3 = m2.tables[root][x3];
                    let t2 = e3.target() as int;
                    if e3.present() && !e3.huge() && m2.tables[t2][x2] == PTE::zero() {
                        done.result is Ok && done.mem == written(m2, t2, x2, e)
                    } else {
                        done.result is Err && done.mem == m2
                    }
                },
                PageSize::Size4K => {
                    let frame = (paddr - paddr % 0x1000) as usize;
                    let e = PTE::zero().with_addr(frame).with_flags(flags);
                    let m2 = if m.tables[root][x3] == PTE::zero() {
                        linked(m, root, x3)
                    } else {
                        m
                    };
                    let e3 = m2.tables[root][x3];
                    let t2 = e3.target() as int;
                    let table3 = e3.present() && !e3.huge();
                    let m1 = if table3 && m2.tables[t2][x2] == PTE::zero() {
                        linked(m2, t2, x2)
                    } else {
                        m2
                    };
                    let e2 = m1.tables[t2][x2];
                    let t1 = e2.target() as int;
                    if table3 && e2.present() && !e2.huge() && m1.tables[t1][x1] == PTE::zero() {
                        done.result is Ok && done.mem == written(m1, t1, x1, e)
                    } else {
                        done.result is Err && done.mem == m1
                    }
                },
            }
        }),
{
    reveal(Memory::entry_or_create);
    reveal(Memory::map_page);
    PTE::law_zero();
    let i = index3(va);
    let j = index2(va);
    let s3 = Slot { table: root, index: i };
    if size != PageSize::Size1G {
        let second = m.next_or_create(s3);
        lemma_linked(m, s3);
        if m.at(s3) == PTE::zero() {
            m.lemma_fit(1);
            if let Some(p) = m.first_fit(1) {
                m.lemma_link3(root, i, p);
                assert(second.mem.entry(p, j) == PTE::zero());
            }
        }
        if let Ok(p2) = second.result {
            assert(second.mem.has2(root, i) && second.mem.t2(root, i) == p2);
            if size != PageSize::Size2M {
                let s2 = Slot { table: p2, index: j };
                let first = second.mem.next_or_create(s2);
                lemma_linked(second.mem, s2);
                second.mem.lemma_tree_walkable(root);
                if second.mem.at(s2) == PTE::zero() {
                    second.mem.lemma_fit(1);
                    if let Some(p) = second.mem.first_fit(1) {
                        second.mem.lemma_link2(root, i, j, p);
                        assert(first.mem.entry(p, index1(va)) == PTE::zero());
                    }
                }
            }
        }
    }
}

/// Giving an unused entry a table, said in two ways.
proof fn lemma_linked<PTE: GenericPTE>(m: Memory<PTE>, slot: Slot)
    requires
        m.wf(),
    ensures
        m.at(slot) == PTE::zero() ==> m.next_or_create(slot).mem == linked(m, slot.table, slot.index),
{
    law_single_frame(m);
}

/// Mapping a region is mapping its first page, the largest that can start there, and then the rest
/// of the region; where the first page cannot be mapped, it is that failure. An empty region leaves
/// all as it is.
pub proof fn law_map_first_page<PTE: GenericPTE>(
    m: Memory<PTE>,
    root: int,
    start: usize,
    len: usize,
    flags: MemFlags,
    mapper: Mapper,
)
    requires
        m.wf(),
        m.tree(root),
        start % PAGE_SIZE == 0,
        len % PAGE_SIZE == 0,
        start + len <= usize::MAX,
        maps_no_table::<PTE>(start as int, len as int, flags, mapper),
    ensures
        ({
            let done = m.map_run(root, start as int, len as int, flags, mapper);
            let to = goes_to(mapper, start as int);
            let huge = flags.bits & 0x100 != 0x100;
            let giga = huge && start % 0x4000_0000 == 0 && to % 0x4000_0000 == 0 && len
                >= 0x4000_0000;
            let mega = huge && start % 0x20_0000 == 0 && to % 0x20_0000 == 0 && len >= 0x20_0000;
            let (size, unit) = if giga {
                (PageSize::Size1G, 0x4000_0000int)
            } else if mega {
                (PageSize::Size2M, 0x20_0000int)
            } else {
                (PageSize::Size4K, 0x1000int)
            };
            let page = m.map_page(root, start as int, size, to as usize, flags);
            let rest = page.mem.map_run(root, start + unit, len - unit, flags, mapper);
            if len == 0 {
                done.mem == m && done.result is Ok
            } else {
                match page.result {
                    Ok(_) => {
                        &&& done.mem == rest.mem
                        &&& done.result == rest.result
                        &&& done.taken == page.taken + rest.taken
                    },
                    Err(e) => {
                        &&& done.mem == page.mem
                        &&& done.result == Err::<(), PagingError>(e)
                        &&& done.taken == page.taken
                    },
                }
            }
        }),
{
    if len > 0 {
        law_mapper(mapper, start);
        lemma_map_step(m, root, start, len, flags, mapper);
    }
}

/// What unmapping a page leaves in memory: the entry that translates the address is unused, and
/// nothing else is changed. The frame and the size of the page are returned. Where nothing is
/// mapped, nothing is changed.
pub proof fn law_unmap_page_memory<PTE: GenericPTE>(m: Memory<PTE>, root: int, va: int)
    requires
        0 <= va,
    ensures
        ({
            let done = m.unmap_page(root, va);
            let x3 = (va / 0x4000_0000) % 512;
            let x2 = (va / 0x20_0000) % 512;
            let x1 = (va / 0x1000) % 512;
            let e3 = m.tables[root][x3];
            let t2 = e3.target() as int;
            let e2 = m.tables[t2][x2];
            let t1 = e2.target() as int;
            let e1 = m.tables[t1][x1];
            if e3.huge() {
                &&& done.mem == written(m, root, x3, PTE::zero())
                &&& done.result == Ok::<_, PagingError>((e3.target(), PageSize::Size1G))
            } else if e3.present() && e2.huge() {
                &&& done.mem == written(m, t2, x2, PTE::zero())
                &&& done.result == Ok::<_, PagingError>((e2.target(), PageSize::Size2M))
            } else if e3.present() && e2.present() && e1 != PTE::zero() {
                &&& done.mem == written(m, t1, x1, PTE::zero())
                &&& done.result == Ok::<_, PagingError>((e1.target(), PageSize::Size4K))
            } else {
                &&& done.mem == m
                &&& done.result == Err::<(PhysAddr, PageSize), _>(PagingError::NotMapped)
            }
        }),
{
    reveal(Memory::unmap_page);
    reveal(Memory::leaf);
    PTE::law_zero();
}

/// Unmapping a region is unmapping the page at its start, and then the rest of the region; where
/// nothing is mapped there, it is that failure. An empty region leaves all as it is.
pub proof fn law_unmap_first_page<PTE: GenericPTE>(
    m: Memory<PTE>,
    root: int,
    start: usize,
    len: usize,
)
    requires
        m.wf(),
        m.tree(root),
        start + len <= usize::MAX,
        m.unmaps_whole_pages(root, start as int, len as int),
    ensures
        ({
            let done = m.unmap_run(root, start as int, len as int);
            let page = m.unmap_page(root, start as int);
            if len == 0 {
                done.mem == m && done.result is Ok
            } else {
                match page.result {
                    Ok((_, size)) => {
                        let unit = match size {
                            PageSize::Size4K => 0x1000int,
                            PageSize::Size2M => 0x20_0000,
                            PageSize::Size1G => 0x4000_0000,
                        };
                        let rest = page.mem.unmap_run(root, start + unit, len - unit);
                        done.mem == rest.mem && done.result == rest.result
                    },
                    Err(e) => done.mem == page.mem && done.result == Err::<(), PagingError>(e),
                }
            }
        }),
{
    if len > 0 {
        lemma_unmap_step(m, root, start, len);
    }
}

} // verus!
