//! What each change of a page table makes of the memory.
use vstd::prelude::*;

use crate::addr::{PhysAddr, PAGE_SIZE};
use crate::entry::GenericPTE;
use crate::error::{PagingError, PagingResult};
use crate::flags::MemFlags;
use crate::memory::{Memory, ROOT_FRAMES};
use crate::model::{is_table, next_table, Slot};
use crate::page::{index1, index2, index3, PageSize};
use crate::region::Mapper;

verus! {

/// The end of a change: the memory it leaves, what it returns, and the frames that it set aside
/// for tables, in order.
pub ghost struct Outcome<PTE, T> {
    pub mem: Memory<PTE>,
    pub result: PagingResult<T>,
    pub taken: Seq<int>,
}

/// The start of the page of this size that holds `addr`.
pub open spec fn page_start(addr: usize, size: PageSize) -> PhysAddr {
    (addr - addr % size.bytes()) as usize
}

/// The flags that a page of this size is mapped with: a huge page does not keep the flag that
/// rules huge pages out.
pub open spec fn page_flags(size: PageSize, flags: MemFlags) -> MemFlags {
    if size == PageSize::Size4K {
        flags
    } else {
        flags.without(MemFlags::NO_HUGEPAGES)
    }
}

/// The entry that maps a page of this size to the frame that holds `paddr`.
pub open spec fn page_entry<PTE: GenericPTE>(size: PageSize, paddr: PhysAddr, flags: MemFlags) -> PTE {
    PTE::zero().with_addr(page_start(paddr, size)).with_flags(page_flags(size, flags))
}

/// The largest page that can start at `vaddr` and go to `paddr` when `left` bytes are still to
/// be mapped.
pub open spec fn page_size_for(
    vaddr: usize,
    paddr: PhysAddr,
    left: int,
    flags: MemFlags,
) -> PageSize {
    if huge_fits(PageSize::Size1G, vaddr, paddr, left, flags) {
        PageSize::Size1G
    } else if huge_fits(PageSize::Size2M, vaddr, paddr, left, flags) {
        PageSize::Size2M
    } else {
        PageSize::Size4K
    }
}

pub open spec fn huge_fits(
    size: PageSize,
    vaddr: usize,
    paddr: PhysAddr,
    left: int,
    flags: MemFlags,
) -> bool {
    &&& vaddr % size.bytes() == 0
    &&& paddr % size.bytes() == 0
    &&& left >= size.bytes()
    &&& !flags.contains(MemFlags::NO_HUGEPAGES)
}

/// None of the huge pages that a region of `left` bytes from `vaddr` on is mapped by can be
/// mistaken for a table.
pub open spec fn maps_no_table<PTE: GenericPTE>(
    vaddr: int,
    left: int,
    flags: MemFlags,
    mapper: Mapper,
) -> bool
    decreases left,
{
    left >= PAGE_SIZE ==> {
        let paddr = mapper.map_fn(vaddr as usize);
        let size = page_size_for(vaddr as usize, paddr, left, flags);
        &&& size == PageSize::Size4K || !is_table(page_entry::<PTE>(size, paddr, flags))
        &&& maps_no_table::<PTE>(vaddr + size.bytes(), left - size.bytes(), flags, mapper)
    }
}

impl<PTE: GenericPTE> Memory<PTE> {
    /// The table behind an entry; an unused entry is first given an empty table.
    pub open spec fn next_or_create(self, slot: Slot) -> Outcome<PTE, int> {
        if self.at(slot) == PTE::zero() {
            match self.first_fit(1) {
                Some(p) => Outcome {
                    mem: self.allocate(p, 1).put(slot, PTE::zero().with_table(p as usize)),
                    result: Ok(p),
                    taken: seq![p],
                },
                None => Outcome {
                    mem: self,
                    result: Err(PagingError::NoMemory),
                    taken: Seq::empty(),
                },
            }
        } else {
            Outcome { mem: self, result: next_table(self.at(slot)), taken: Seq::empty() }
        }
    }

    /// The entry for the page of this size at `vaddr`, with the tables above it made where they
    /// are missing.
    #[verifier::opaque]
    pub open spec fn entry_or_create(self, root: int, vaddr: int, size: PageSize) -> Outcome<
        PTE,
        Slot,
    > {
        let s3 = Slot { table: root, index: index3(vaddr) };
        if size == PageSize::Size1G {
            Outcome { mem: self, result: Ok(s3), taken: Seq::empty() }
        } else {
            let second = self.next_or_create(s3);
            match second.result {
                Err(e) => Outcome { mem: second.mem, result: Err(e), taken: second.taken },
                Ok(p2) => {
                    let s2 = Slot { table: p2, index: index2(vaddr) };
                    if size == PageSize::Size2M {
                        Outcome { mem: second.mem, result: Ok(s2), taken: second.taken }
                    } else {
                        let first = second.mem.next_or_create(s2);
                        let taken = second.taken + first.taken;
                        match first.result {
                            Err(e) => Outcome { mem: first.mem, result: Err(e), taken },
                            Ok(p1) => Outcome {
                                mem: first.mem,
                                result: Ok(Slot { table: p1, index: index1(vaddr) }),
                                taken,
                            },
                        }
                    }
                },
            }
        }
    }

    /// Maps the page of this size at `vaddr` to the frame that holds `paddr`.
    #[verifier::opaque]
    pub open spec fn map_page(
        self,
        root: int,
        vaddr: int,
        size: PageSize,
        paddr: PhysAddr,
        flags: MemFlags,
    ) -> Outcome<PTE, Slot> {
        let path = self.entry_or_create(root, vaddr, size);
        match path.result {
            Err(e) => path,
            Ok(slot) => if path.mem.at(slot) != PTE::zero() {
                Outcome { result: Err(PagingError::AlreadyMapped), ..path }
            } else {
                Outcome { mem: path.mem.put(slot, page_entry(size, paddr, flags)), ..path }
            },
        }
    }

    /// Takes back the mapping of the page that holds `vaddr`.
    #[verifier::opaque]
    pub open spec fn unmap_page(self, root: int, vaddr: int) -> Outcome<PTE, (PhysAddr, PageSize)> {
        match (self.locate(root, vaddr), self.leaf(root, vaddr)) {
            (Ok((slot, size)), Ok((e, _))) => Outcome {
                mem: self.put(slot, PTE::zero()),
                result: Ok((e.target(), size)),
                taken: Seq::empty(),
            },
            (_, Err(e)) => Outcome { mem: self, result: Err(e), taken: Seq::empty() },
            (Err(e), _) => Outcome { mem: self, result: Err(e), taken: Seq::empty() },
        }
    }

    /// Changes the mapping of the page that holds `vaddr`.
    pub open spec fn update_page(
        self,
        root: int,
        vaddr: int,
        paddr: PhysAddr,
        flags: MemFlags,
    ) -> Outcome<PTE, PageSize> {
        match self.locate(root, vaddr) {
            Ok((slot, size)) => Outcome {
                mem: self.put(slot, self.at(slot).with_addr(paddr).with_flags(flags)),
                result: Ok(size),
                taken: Seq::empty(),
            },
            Err(e) => Outcome { mem: self, result: Err(e), taken: Seq::empty() },
        }
    }

    /// The page table stays one when the mapping of the page that holds `vaddr` is changed: a huge
    /// page is not made a pointer to a table.
    pub open spec fn update_keeps_tree(
        self,
        root: int,
        vaddr: int,
        paddr: PhysAddr,
        flags: MemFlags,
    ) -> bool {
        self.locate(root, vaddr) matches Ok((slot, size)) ==> size == PageSize::Size4K || !is_table(
            self.at(slot).with_addr(paddr).with_flags(flags),
        )
    }

    /// Maps `left` bytes from `vaddr` on, page by page, until all is mapped or a page cannot be.
    pub open spec fn map_run(
        self,
        root: int,
        vaddr: int,
        left: int,
        flags: MemFlags,
        mapper: Mapper,
    ) -> Outcome<PTE, ()>
        decreases left,
    {
        if left < PAGE_SIZE {
            Outcome { mem: self, result: Ok(()), taken: Seq::empty() }
        } else {
            let paddr = mapper.map_fn(vaddr as usize);
            let size = page_size_for(vaddr as usize, paddr, left, flags);
            let page = self.map_page(root, vaddr, size, paddr, flags);
            match page.result {
                Err(e) => Outcome { mem: page.mem, result: Err(e), taken: page.taken },
                Ok(_) => {
                    let rest = page.mem.map_run(
                        root,
                        vaddr + size.bytes(),
                        left - size.bytes(),
                        flags,
                        mapper,
                    );
                    Outcome { taken: page.taken + rest.taken, ..rest }
                },
            }
        }
    }

    /// Takes back the mappings of `left` bytes from `vaddr` on, page by page, until all is done
    /// or a page is not mapped.
    pub open spec fn unmap_run(self, root: int, vaddr: int, left: int) -> Outcome<PTE, ()>
        decreases left,
    {
        if left <= 0 {
            Outcome { mem: self, result: Ok(()), taken: Seq::empty() }
        } else {
            let page = self.unmap_page(root, vaddr);
            match page.result {
                Err(e) => Outcome { mem: page.mem, result: Err(e), taken: Seq::empty() },
                Ok((_, size)) => if size.bytes() > left {
                    Outcome { mem: page.mem, result: Ok(()), taken: Seq::empty() }
                } else {
                    page.mem.unmap_run(root, vaddr + size.bytes(), left - size.bytes())
                },
            }
        }
    }

    /// Every page that is met while `left` bytes from `vaddr` on are unmapped starts where it is
    /// met and ends within them.
    pub open spec fn unmaps_whole_pages(self, root: int, vaddr: int, left: int) -> bool
        decreases left,
    {
        if left <= 0 {
            true
        } else {
            let page = self.unmap_page(root, vaddr);
            match page.result {
                Err(_) => true,
                Ok((_, size)) => if size.bytes() > left || vaddr % size.bytes() as int != 0 {
                    false
                } else {
                    page.mem.unmaps_whole_pages(root, vaddr + size.bytes(), left - size.bytes())
                },
            }
        }
    }

    /// A new root is made at `dst`, with the entries of the root at `src`.
    pub open spec fn clone_root(self, src: int, dst: int) -> Self {
        let fresh = self.allocate(dst, ROOT_FRAMES as int);
        Memory { tables: fresh.tables.insert(dst, self.tables[src]), ..fresh }
    }

    /// A frame that is set aside was there and not in use.
    pub proof fn lemma_fit(self, count: int)
        requires
            count > 0,
        ensures
            self.first_fit(count) matches Some(p) ==> {
                &&& self.free_run(p, count)
                &&& self.tables.contains_key(p)
                &&& !self.allocated.contains(p)
            },
    {
        if let Some(p) = self.first_fit(count) {
            let q = choose|q: int| self.is_first_fit(q, count);
            assert(self.is_first_fit(q, count));
            self.lemma_free_run(p, count, 0);
        }
    }

    /// The entry for a page is in memory, and so are the tables that were there before.
    pub proof fn lemma_path(self, root: int, vaddr: int, size: PageSize)
        requires
            self.wf(),
            self.tree(root),
        ensures
            self.entry_or_create(root, vaddr, size).result matches Ok(slot)
                ==> self.tables.contains_key(slot.table) && 0 <= slot.index < 512,
            self.entry_or_create(root, vaddr, size).mem.tables.dom() == self.tables.dom(),
            self.entry_or_create(root, vaddr, size).mem.wf(),
    {
        reveal(Memory::entry_or_create);
        self.lemma_tree_walkable(root);
        let i = index3(vaddr);
        let j = index2(vaddr);
        let s3 = Slot { table: root, index: i };
        assert(self.has2(root, i) ==> self.tables.contains_key(self.t2(root, i)));
        assert(self.has1(root, i, j) ==> self.tables.contains_key(self.t1(root, i, j)));
        self.lemma_fit(1);
        let second = self.next_or_create(s3);
        assert(second.mem.tables.dom() =~= self.tables.dom());
        if let Ok(p2) = second.result {
            let s2 = Slot { table: p2, index: j };
            let first = second.mem.next_or_create(s2);
            second.mem.lemma_fit(1);
            assert(first.mem.tables.dom() =~= self.tables.dom());
        }
    }
}

} // verus!
