//! Page tables that can be changed, without a lock.
use std::marker::PhantomData;
use vstd::prelude::*;

use crate::addr::{PhysAddr, VirtAddress};
use crate::change::{page_entry, page_flags};
use crate::entry::GenericPTE;
use crate::error::{HvResult, PagingError, PagingResult};
use crate::flags::MemFlags;
use crate::instr::PagingInstr;
use crate::memory::{Frame, Memory, PhysMemory, ROOT_FRAMES};
use crate::model::Slot;
use crate::page::{p1_index, p2_index, p3_index, Page, PageSize, ENTRY_COUNT};
use crate::table::{next_table_mut, GenericPageTableImmut, Level3PageTableImmut};

verus! {

/// A extended level-3 page table that can change its mapping. It also tracks all intermediate
/// level tables. Locks need to be used if change the same page table concurrently.
pub(crate) struct Level3PageTableUnlocked<VA, PTE: GenericPTE, I: PagingInstr> {
    pub(crate) inner: Level3PageTableImmut<VA, PTE>,
    /// Intermediate level table frames.
    pub(crate) intrm_tables: Vec<Frame>,
    /// Phantom data.
    pub(crate) _phantom: PhantomData<(VA, PTE, I)>,
}

/// The frames that these addresses belong to, one each.
pub open spec fn single_frames(addrs: Seq<int>) -> Seq<Frame> {
    addrs.map_values(|p: int| Frame { start_paddr: p as usize, frame_count: 1 })
}

/// One of the frames starts at `t`.
pub open spec fn among(frames: Seq<Frame>, t: int) -> bool {
    exists|k: int| 0 <= k < frames.len() && (#[trigger] frames[k]).start_paddr == t
}

/// The tables of the page table are the root and those in the frames.
pub open spec fn all_kept<PTE: GenericPTE>(m: Memory<PTE>, root: int, frames: Seq<Frame>) -> bool {
    forall|t: int| #[trigger] m.owns(root, t) <==> t == root || among(frames, t)
}

/// A page table that keeps the frames that it takes goes on keeping all of its tables.
pub(crate) proof fn lemma_all_kept<PTE: GenericPTE>(
    m: Memory<PTE>,
    after: Memory<PTE>,
    root: int,
    frames: Seq<Frame>,
    taken: Seq<int>,
)
    requires
        m.wf(),
        m.grows(after, root, taken),
        all_kept(m, root, frames),
    ensures
        all_kept(after, root, frames + single_frames(taken)),
{
    let all = frames + single_frames(taken);
    assert forall|t: int| #[trigger] among(all, t) <==> among(frames, t) || taken.contains(t) by {
        if among(frames, t) {
            let k = choose|k: int| 0 <= k < frames.len() && (#[trigger] frames[k]).start_paddr == t;
            assert(all[k].start_paddr == t);
        }
        if taken.contains(t) {
            let k = choose|k: int| 0 <= k < taken.len() && taken[k] == t;
            assert(m.tables.contains_key(t));
            assert(all[frames.len() + k].start_paddr == t);
        }
        if among(all, t) {
            let k = choose|k: int| 0 <= k < all.len() && (#[trigger] all[k]).start_paddr == t;
            if k < frames.len() {
                assert(frames[k].start_paddr == t);
            } else {
                assert(taken.contains(taken[k - frames.len()]));
                assert(m.tables.contains_key(taken[k - frames.len()]));
            }
        }
    }
    assert forall|t: int| #[trigger] after.owns(root, t) <==> t == root || among(all, t) by {
        assert(among(all, t) <==> among(frames, t) || taken.contains(t));
        assert(m.owns(root, t) <==> t == root || among(frames, t));
    }
}

impl<VA: VirtAddress, PTE: GenericPTE, I: PagingInstr> Level3PageTableUnlocked<VA, PTE, I> {
    pub(crate) fn new(mem: &mut PhysMemory<PTE>) -> (r: Self)
        requires
            old(mem).wf(),
            old(mem)@.first_fit(ROOT_FRAMES as int) is Some,
        ensures
            final(mem).wf(),
            old(mem)@.first_fit(ROOT_FRAMES as int) == Some(r.inner.root() as int),
            old(mem)@.free_run(r.inner.root() as int, ROOT_FRAMES as int),
            final(mem)@ == old(mem)@.allocate(r.inner.root() as int, ROOT_FRAMES as int),
            r.inner.root_frame().frame_count == ROOT_FRAMES,
            r.intrm_tables@ == Seq::<Frame>::empty(),
    {
        Level3PageTableUnlocked {
            inner: Level3PageTableImmut::new(mem),
            intrm_tables: Vec::new(),
            _phantom: PhantomData,
        }
    }

    pub(crate) fn from_root(root_paddr: PhysAddr) -> (r: Self)
        ensures
            r.inner.root() == root_paddr,
            r.inner.root_frame().frame_count == 0,
            r.intrm_tables@ == Seq::<Frame>::empty(),
    {
        Level3PageTableUnlocked {
            inner: Level3PageTableImmut::from_root(root_paddr),
            intrm_tables: Vec::new(),
            _phantom: PhantomData,
        }
    }

    /// Sets a frame aside for an intermediate table, and keeps it.
    pub(crate) fn alloc_intrm_table(&mut self, mem: &mut PhysMemory<PTE>) -> (r: HvResult<PhysAddr>)
        requires
            old(mem).wf(),
        ensures
            final(mem).wf(),
            final(self).inner == old(self).inner,
            match r {
                Ok(paddr) => {
                    &&& old(mem)@.first_fit(1) == Some(paddr as int)
                    &&& old(mem)@.free_run(paddr as int, 1)
                    &&& final(mem)@ == old(mem)@.allocate(paddr as int, 1)
                    &&& final(self).intrm_tables@ == old(self).intrm_tables@ + single_frames(
                        seq![paddr as int],
                    )
                },
                Err(err) => {
                    &&& old(mem)@.first_fit(1) is None
                    &&& final(mem)@ == old(mem)@
                    &&& final(self).intrm_tables@ == old(self).intrm_tables@
                    &&& err.reports(PagingError::NoMemory)
                },
            },
    {
        match Frame::new_zero(mem) {
            Ok(frame) => {
                let paddr: usize = frame.start_paddr();
                self.intrm_tables.push(frame);
                Ok(paddr)
            },
            Err(e) => Err(e),
        }
    }

    /// Intermediate tables are kept as long as the page table is.
    pub(crate) fn _dealloc_intrm_table(&mut self, _paddr: PhysAddr)
        ensures
            *final(self) == *old(self),
    {
    }

    /// The address of the table behind an entry; an unused entry is first given an empty table.
    pub(crate) fn next_table_mut_or_create(
        &mut self,
        mem: &mut PhysMemory<PTE>,
        table: PhysAddr,
        index: usize,
    ) -> (r: PagingResult<PhysAddr>)
        requires
            old(mem).wf(),
            old(mem)@.tables.contains_key(table as int),
            index < ENTRY_COUNT,
        ensures
            final(mem).wf(),
            final(self).inner == old(self).inner,
            ({
                let done = old(mem)@.next_or_create(
                    Slot { table: table as int, index: index as int },
                );
                &&& final(mem)@ == done.mem
                &&& final(self).intrm_tables@ == old(self).intrm_tables@ + single_frames(done.taken)
                &&& match (r, done.result) {
                    (Ok(a), Ok(b)) => a == b,
                    (Err(a), Err(b)) => a == b,
                    _ => false,
                }
            }),
    {
        if mem.entry(table, index).is_unused() {
            let paddr: usize = match self.alloc_intrm_table(mem) {
                Ok(paddr) => paddr,
                Err(_) => {
                    return Err(PagingError::NoMemory);
                },
            };
            mem.entry_mut(table, index).set_table(paddr);
            Ok(paddr)
        } else {
            next_table_mut(mem.entry(table, index))
        }
    }

    /// The entry for a page, to be changed in place, with the tables above it made where they are
    /// missing.
    pub(crate) fn get_entry_mut_or_create<'a>(
        &mut self,
        mem: &'a mut PhysMemory<PTE>,
        page: Page<VA>,
        flags: &mut MemFlags,
    ) -> (r: PagingResult<&'a mut PTE>)
        requires
            old(mem).wf(),
            old(mem)@.tree(old(self).inner.root() as int),
        ensures
            ({
                let done = old(mem)@.entry_or_create(
                    old(self).inner.root() as int,
                    page.vaddr.number() as int,
                    page.size,
                );
                &&& final(self).intrm_tables@ == old(self).intrm_tables@ + single_frames(done.taken)
                &&& match (r, done.result) {
                    (Ok(entry), Ok(slot)) => {
                        &&& *entry == done.mem.at(slot)
                        &&& final(mem)@ == done.mem.put(slot, *final(entry))
                        &&& *final(flags) == page_flags(page.size, *old(flags))
                    },
                    (Err(a), Err(b)) => a == b && final(mem)@ == done.mem && *final(flags) == *old(
                        flags,
                    ),
                    _ => false,
                }
            }),
            final(mem).wf(),
            final(self).inner == old(self).inner,
    {
        proof {
            reveal(Memory::entry_or_create);
            mem@.lemma_tree_walkable(self.inner.root() as int);
        }
        let vaddr: usize = page.vaddr.into_usize();
        let p3: usize = self.inner.root_paddr();
        let i3: usize = p3_index(vaddr);
        if page.size == PageSize::Size1G {
            flags.remove(MemFlags::NO_HUGEPAGES);
            return Ok(mem.entry_mut(p3, i3));
        }
        let p2: usize = match self.next_table_mut_or_create(mem, p3, i3) {
            Ok(p2) => p2,
            Err(e) => {
                return Err(e);
            },
        };
        proof {
            old(mem)@.lemma_path(p3 as int, vaddr as int, PageSize::Size2M);
            old(mem)@.lemma_path(p3 as int, vaddr as int, PageSize::Size4K);
        }
        let i2: usize = p2_index(vaddr);
        if page.size == PageSize::Size2M {
            flags.remove(MemFlags::NO_HUGEPAGES);
            return Ok(mem.entry_mut(p2, i2));
        }
        let p1: usize = match self.next_table_mut_or_create(mem, p2, i2) {
            Ok(p1) => p1,
            Err(e) => {
                return Err(e);
            },
        };
        let i1: usize = p1_index(vaddr);
        Ok(mem.entry_mut(p1, i1))
    }

    /// Maps a page to the frame that holds `paddr`.
    pub(crate) fn map_page<'a>(
        &mut self,
        mem: &'a mut PhysMemory<PTE>,
        page: Page<VA>,
        paddr: PhysAddr,
        flags: MemFlags,
    ) -> (r: PagingResult<&'a mut PTE>)
        requires
            old(mem).wf(),
            old(mem)@.tree(old(self).inner.root() as int),
        ensures
            ({
                let root = old(self).inner.root() as int;
                let vaddr = page.vaddr.number() as int;
                let path = old(mem)@.entry_or_create(root, vaddr, page.size);
                let done = old(mem)@.map_page(root, vaddr, page.size, paddr, flags);
                &&& final(self).intrm_tables@ == old(self).intrm_tables@ + single_frames(done.taken)
                &&& match (r, done.result) {
                    (Ok(entry), Ok(slot)) => {
                        &&& *entry == page_entry::<PTE>(page.size, paddr, flags)
                        &&& final(mem)@ == path.mem.put(slot, *final(entry))
                        &&& *final(entry) == *entry ==> final(mem)@ == done.mem
                    },
                    (Err(a), Err(b)) => a == b && final(mem)@ == done.mem,
                    _ => false,
                }
            }),
            final(mem).wf(),
            final(self).inner == old(self).inner,
    {
        let mut flags: MemFlags = flags;
        proof {
            reveal(Memory::map_page);
            let root = self.inner.root() as int;
            let path = mem@.entry_or_create(root, page.vaddr.number() as int, page.size);
            mem@.lemma_path(root, page.vaddr.number() as int, page.size);
            if let Ok(slot) = path.result {
                path.mem.lemma_put_same(slot);
            }
        }
        match self.get_entry_mut_or_create(mem, page, &mut flags) {
            Ok(entry) => {
                if !entry.is_unused() {
                    return Err(PagingError::AlreadyMapped);
                }
                entry.set_addr(page.size.align_down(paddr));
                entry.set_flags(flags);
                Ok(entry)
            },
            Err(e) => Err(e),
        }
    }

    /// Takes back the mapping of the page that holds `vaddr`.
    pub(crate) fn unmap_page(&mut self, mem: &mut PhysMemory<PTE>, vaddr: VA) -> (r: PagingResult<
        (PhysAddr, PageSize),
    >)
        requires
            old(mem).wf(),
            old(mem)@.way(old(self).inner.root() as int, vaddr.number() as int),
        ensures
            ({
                let done = old(mem)@.unmap_page(
                    old(self).inner.root() as int,
                    vaddr.number() as int,
                );
                r == done.result && final(mem)@ == done.mem
            }),
            final(mem).wf(),
            *final(self) == *old(self),
    {
        proof {
            reveal(Memory::unmap_page);
            reveal(Memory::leaf);
            let root = self.inner.root() as int;
            mem@.lemma_located(root, vaddr.number() as int);
            if let Ok((slot, _)) = mem@.locate(root, vaddr.number() as int) {
                mem@.lemma_put_same(slot);
            }
        }
        match self.inner.get_entry_mut(mem, vaddr) {
            Ok((entry, size)) => {
                if entry.is_unused() {
                    return Err(PagingError::NotMapped);
                }
                let paddr: usize = entry.addr();
                entry.clear();
                Ok((paddr, size))
            },
            Err(e) => Err(e),
        }
    }

    /// Changes the mapping of the page that holds `vaddr`.
    pub(crate) fn update(
        &mut self,
        mem: &mut PhysMemory<PTE>,
        vaddr: VA,
        paddr: PhysAddr,
        flags: MemFlags,
    ) -> (r: PagingResult<PageSize>)
        requires
            old(mem).wf(),
            old(mem)@.way(old(self).inner.root() as int, vaddr.number() as int),
        ensures
            ({
                let done = old(mem)@.update_page(
                    old(self).inner.root() as int,
                    vaddr.number() as int,
                    paddr,
                    flags,
                );
                r == done.result && final(mem)@ == done.mem
            }),
            final(mem).wf(),
            *final(self) == *old(self),
    {
        match self.inner.get_entry_mut(mem, vaddr) {
            Ok((entry, size)) => {
                entry.set_addr(paddr);
                entry.set_flags(flags);
                Ok(size)
            },
            Err(e) => Err(e),
        }
    }
}

} // verus!
