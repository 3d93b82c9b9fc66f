//! Page tables that can be changed and shared.
use std::sync::Arc;
use vstd::prelude::*;

use crate::addr::{PhysAddr, VirtAddress, PAGE_SIZE};
use crate::change::{maps_no_table, page_size_for};
use crate::clone_laws::law_clone_made;
use crate::entry::GenericPTE;
use crate::error::{HvError, HvResult, PagingError, PagingResult};
use crate::flags::MemFlags;
use crate::instr::PagingInstr;
use crate::laws::{law_clone_root, law_new, law_update, lemma_map_step, lemma_unmap_step};
use crate::lock::{hold, new_lock};
use crate::memory::{Frame, Memory, PhysMemory, ROOT_FRAMES};
use crate::model::reach;
use crate::page::{Page, PageSize};
use crate::region::MemoryRegion;
use crate::region_laws::{
    law_map_run, law_unmap_run, mapped_up_to, region_flags, unmapped_up_to,
};
use crate::spans::in_span;
use crate::table::{law_root, walk_from, walkable_from, GenericPageTableImmut, WalkItem};
use crate::table_laws::{law_map_grows, law_unmap_grows, law_update_grows};
use crate::translation_laws::{
    law_map_translations, law_unmap_translations, law_update_translations, translated_by,
    translated_up_to, untranslated_up_to, updated_to,
};
use crate::unlocked::{all_kept, lemma_all_kept, single_frames, Level3PageTableUnlocked};

verus! {

/// A extended mutable page table can change mappings.
pub trait GenericPageTable: GenericPageTableImmut {
    /// The tables are in memory and can be changed.
    spec fn wf(&self, m: Memory<Self::PTE>) -> bool;

    /// The region can be mapped, as far as memory and former mappings allow.
    spec fn can_map(&self, m: Memory<Self::PTE>, region: MemoryRegion<Self::VA>) -> bool;

    /// The region consists of whole pages, as far as it is mapped.
    spec fn can_unmap(&self, m: Memory<Self::PTE>, region: MemoryRegion<Self::VA>) -> bool;

    /// The page table cannot tell `vaddr` from the addresses from `start` up to `stop`.
    spec fn hits(vaddr: int, start: int, stop: int) -> bool;

    /// The first address of a region that is not mapped when mapping it ends.
    spec fn map_stop(&self, m: Memory<Self::PTE>, region: MemoryRegion<Self::VA>) -> int;

    /// The first address of a region whose mapping is not taken back when unmapping it ends.
    spec fn unmap_stop(&self, m: Memory<Self::PTE>, region: MemoryRegion<Self::VA>) -> int;

    /// A page table that maps nothing.
    fn new(mem: &mut PhysMemory<Self::PTE>) -> (r: Self)
        requires
            old(mem).wf(),
            old(mem)@.first_fit(ROOT_FRAMES as int) is Some,
        ensures
            final(mem).wf(),
            r.wf(final(mem)@),
            forall|vaddr: int| #[trigger]
                r.translation(final(mem)@, vaddr) == Err::<(int, MemFlags, PageSize), PagingError>(
                    PagingError::NotMapped,
                ),
    ;

    /// Maps a region, as far as it was not mapped before.
    fn map(
        &mut self,
        mem: &mut PhysMemory<Self::PTE>,
        region: &MemoryRegion<Self::VA>,
    ) -> (r: HvResult)
        requires
            old(mem).wf(),
            old(self).wf(old(mem)@),
            old(self).can_map(old(mem)@, *region),
        ensures
            final(mem).wf(),
            final(self).wf(final(mem)@),
            final(self).root() == old(self).root(),
            ({
                let start = region.start.number() as int;
                let stop = old(self).map_stop(old(mem)@, *region);
                &&& start <= stop <= start + region.size
                &&& r is Ok <==> stop == start + region.size
                &&& forall|va: int|
                    0 <= va && !Self::hits(va, start, stop) ==> #[trigger] final(self).translation(
                        final(mem)@,
                        va,
                    ) == old(self).translation(old(mem)@, va)
                &&& forall|va: int|
                    start <= va < stop ==> #[trigger] old(self).translation(old(mem)@, va) == Err::<
                        (int, MemFlags, PageSize),
                        PagingError,
                    >(PagingError::NotMapped)
                &&& region_flags::<Self::PTE>(region.flags) ==> forall|va: int|
                    start <= va < stop ==> translated_by::<Self::PTE>(
                        #[trigger] final(self).translation(final(mem)@, va),
                        region.flags,
                        region.mapper,
                        va,
                    )
            }),
    ;

    /// Takes back the mapping of a region.
    fn unmap(
        &mut self,
        mem: &mut PhysMemory<Self::PTE>,
        region: &MemoryRegion<Self::VA>,
    ) -> (r: HvResult)
        requires
            old(mem).wf(),
            old(self).wf(old(mem)@),
            old(self).can_unmap(old(mem)@, *region),
        ensures
            final(mem).wf(),
            final(self).wf(final(mem)@),
            final(self).root() == old(self).root(),
            ({
                let start = region.start.number() as int;
                let stop = old(self).unmap_stop(old(mem)@, *region);
                &&& start <= stop <= start + region.size
                &&& r is Ok <==> stop == start + region.size
                &&& r matches Err(err) ==> err.reports(PagingError::NotMapped)
                &&& forall|va: int|
                    0 <= va && !Self::hits(va, start, stop) ==> #[trigger] final(self).translation(
                        final(mem)@,
                        va,
                    ) == old(self).translation(old(mem)@, va)
                &&& forall|va: int|
                    start <= va < stop ==> #[trigger] old(self).translation(old(mem)@, va) is Ok
                &&& forall|va: int|
                    start <= va < stop ==> #[trigger] final(self).translation(final(mem)@, va)
                        == Err::<(int, MemFlags, PageSize), PagingError>(PagingError::NotMapped)
            }),
    ;

    /// Changes the mapping of the page that holds `vaddr`.
    fn update(
        &mut self,
        mem: &mut PhysMemory<Self::PTE>,
        vaddr: Self::VA,
        paddr: PhysAddr,
        flags: MemFlags,
    ) -> (r: PagingResult<PageSize>)
        requires
            old(mem).wf(),
            old(self).wf(old(mem)@),
        ensures
            final(mem).wf(),
            final(self).root() == old(self).root(),
            Self::PTE::terminal_flags(flags) ==> final(self).wf(final(mem)@),
            match r {
                Ok(size) => {
                    let first = vaddr.number() - vaddr.number() % size.bytes();
                    &&& forall|va: int|
                        0 <= va && !Self::hits(va, first, first + size.bytes())
                            ==> #[trigger] final(self).translation(final(mem)@, va) == old(
                            self,
                        ).translation(old(mem)@, va)
                    &&& Self::PTE::terminal_flags(flags) || size == PageSize::Size4K && (forall|
                        e: Self::PTE,
                    | #[trigger] e.with_flags(flags) != Self::PTE::zero()) ==> forall|va: int|
                        0 <= va && Self::hits(va, first, first + size.bytes()) ==> updated_to::<
                            Self::PTE,
                        >(
                            #[trigger] final(self).translation(final(mem)@, va),
                            size,
                            paddr,
                            flags,
                            va,
                        )
                },
                Err(e) => {
                    &&& old(self).translation(old(mem)@, vaddr.number() as int) == Err::<
                        (int, MemFlags, PageSize),
                        PagingError,
                    >(e)
                    &&& final(mem)@ == old(mem)@
                },
            },
    ;

    /// A page table with the same mappings and a root of its own.
    fn clone(&self, mem: &mut PhysMemory<Self::PTE>) -> (r: Self)
        requires
            old(mem).wf(),
            self.wf(old(mem)@),
            old(mem)@.first_fit(ROOT_FRAMES as int) is Some,
        ensures
            final(mem).wf(),
            r.wf(final(mem)@),
            self.wf(final(mem)@),
            forall|vaddr: int| #[trigger]
                r.translation(final(mem)@, vaddr) == self.translation(old(mem)@, vaddr),
            forall|vaddr: int| #[trigger]
                self.translation(final(mem)@, vaddr) == self.translation(old(mem)@, vaddr),
    ;

    /// Makes the machine translate through this page table, and tells it nothing else.
    fn activate(&self)
        opens_invariants [ 2 * (self.root() as int) ]
    ;

    /// Makes the machine drop what it keeps of the translation of `vaddr` or, without an
    /// address, of every translation, and tells it nothing else.
    fn flush(&self, vaddr: Option<Self::VA>)
        opens_invariants [ match vaddr {
            Some(va) => 2 * (va.number() as int) + 1,
            None => -1int,
        } ]
    ;
}

/// A extended level-3 page table implements `GenericPageTable`. It use locks to avoid data
/// racing between it and its clonees.
pub struct Level3PageTable<VA, PTE: GenericPTE, I: PagingInstr> {
    inner: Level3PageTableUnlocked<VA, PTE, I>,
    /// Make sure all accesses to the page table and its clonees is exclusive.
    clonee_lock: Arc<spin::mutex::Mutex<(), spin::relax::Spin>>,
}

impl<VA: VirtAddress, PTE: GenericPTE, I: PagingInstr> Level3PageTable<VA, PTE, I> {
    /// The frame of the root table.
    pub closed spec fn root_frame(&self) -> Frame {
        self.inner.inner.root_frame()
    }

    /// The frames of the intermediate tables that the page table made.
    pub closed spec fn intrm_frames(&self) -> Seq<Frame> {
        self.inner.intrm_tables@
    }

    /// The page table keeps the frames of all its tables.
    pub open spec fn tracks(&self, m: Memory<PTE>) -> bool {
        all_kept(m, self.root() as int, self.intrm_frames())
    }

    /// The lock that the page table shares with its clones.
    pub closed spec fn shared_lock(&self) -> Arc<spin::mutex::Mutex<(), spin::relax::Spin>> {
        self.clonee_lock
    }

    /// The shared lock was taken: `hold` was called on it and returned a guard.
    pub closed spec fn lock_taken(&self) -> bool {
        exists|guard: spin::mutex::MutexGuard<'_, ()>| #[trigger]
            call_ensures(hold, (&*self.clonee_lock,), guard)
    }

    /// What is met on a walk from the root on, as far as `limit` entries of each table.
    pub fn dump(&self, mem: &PhysMemory<PTE>, limit: usize) -> (r: Vec<WalkItem>)
        requires
            mem.wf(),
            walkable_from(mem@, self.root() as int, 0, limit as int),
        ensures
            r@ == walk_from(mem@, self.root() as int, 0, 0, limit as int, 0, 0),
    {
        self.inner.inner.dump(mem, limit)
    }

    /// Clone only the top level page table mapping from `src`.
    pub fn clone_from<S: GenericPageTableImmut<PTE = PTE>>(mem: &mut PhysMemory<PTE>, src: &S) -> (r:
        Self)
        requires
            old(mem).wf(),
            old(mem)@.first_fit(ROOT_FRAMES as int) is Some,
            old(mem)@.live(src.root() as int),
        ensures
            final(mem).wf(),
            old(mem)@.first_fit(ROOT_FRAMES as int) == Some(r.root() as int),
            old(mem)@.free_run(r.root() as int, ROOT_FRAMES as int),
            final(mem)@ == old(mem)@.clone_root(src.root() as int, r.root() as int),
            r.root_frame().frame_count == ROOT_FRAMES,
            r.intrm_frames() == Seq::<Frame>::empty(),
    {
        // The clonee won't track intermediate tables, must ensure it lives shorter than the
        // original page table.
        let pt = Self::new(mem);
        let dst: usize = pt.root_paddr();
        let src: usize = src.root_paddr();
        proof {
            old(mem)@.lemma_allocate_keeps(dst as int, ROOT_FRAMES as int, src as int);
            old(mem)@.lemma_free_run(dst as int, ROOT_FRAMES as int, 0);
        }
        mem.copy_table(src, dst);
        assert(mem@ =~= old(mem)@.clone_root(src as int, dst as int));
        pt
    }
}

impl<VA: VirtAddress, PTE: GenericPTE, I: PagingInstr> GenericPageTableImmut for Level3PageTable<
    VA,
    PTE,
    I,
> {
    type VA = VA;

    type PTE = PTE;

    closed spec fn root(&self) -> PhysAddr {
        self.inner.inner.root()
    }

    open spec fn can_query(&self, m: Memory<PTE>, vaddr: int) -> bool {
        &&& m.way(self.root() as int, vaddr)
        &&& m.translate(self.root() as int, vaddr) matches Ok(t) ==> t.0 <= usize::MAX
    }

    open spec fn translation(&self, m: Memory<PTE>, vaddr: int) -> PagingResult<
        (int, MemFlags, PageSize),
    > {
        m.translate(self.root() as int, vaddr)
    }

    fn from_root(root_paddr: PhysAddr) -> (r: Self)
        ensures
            r.intrm_frames() == Seq::<Frame>::empty(),
            r.root_frame().frame_count == 0,
    {
        Level3PageTable {
            inner: Level3PageTableUnlocked::from_root(root_paddr),
            clonee_lock: Arc::new(new_lock()),
        }
    }

    fn root_paddr(&self) -> (r: PhysAddr) {
        self.inner.inner.root_paddr()
    }

    fn query(&self, mem: &PhysMemory<PTE>, vaddr: VA) -> (r: PagingResult<
        (PhysAddr, MemFlags, PageSize),
    >)
        ensures
            self.lock_taken(),
    {
        let _lock = hold(&self.clonee_lock);
        self.inner.inner.query(mem, vaddr)
    }
}

impl<VA: VirtAddress, PTE: GenericPTE, I: PagingInstr> GenericPageTable for Level3PageTable<
    VA,
    PTE,
    I,
> {
    open spec fn wf(&self, m: Memory<PTE>) -> bool {
        m.tree(self.root() as int)
    }

    open spec fn can_map(&self, m: Memory<PTE>, region: MemoryRegion<VA>) -> bool {
        &&& region.start.number() % PAGE_SIZE == 0
        &&& region.size % PAGE_SIZE == 0
        &&& region.start.number() + region.size <= usize::MAX
        &&& maps_no_table::<PTE>(
            region.start.number() as int,
            region.size as int,
            region.flags,
            region.mapper,
        )
    }

    open spec fn can_unmap(&self, m: Memory<PTE>, region: MemoryRegion<VA>) -> bool {
        &&& region.start.number() + region.size <= usize::MAX
        &&& m.unmaps_whole_pages(
            self.root() as int,
            region.start.number() as int,
            region.size as int,
        )
    }

    open spec fn hits(vaddr: int, start: int, stop: int) -> bool {
        in_span(vaddr, start, stop)
    }

    open spec fn map_stop(&self, m: Memory<PTE>, region: MemoryRegion<VA>) -> int {
        m.map_stop(
            self.root() as int,
            region.start.number() as int,
            region.size as int,
            region.flags,
            region.mapper,
        )
    }

    open spec fn unmap_stop(&self, m: Memory<PTE>, region: MemoryRegion<VA>) -> int {
        m.unmap_stop(self.root() as int, region.start.number() as int, region.size as int)
    }

    fn new(mem: &mut PhysMemory<PTE>) -> (r: Self)
        ensures
            old(mem)@.first_fit(ROOT_FRAMES as int) == Some(r.root() as int),
            old(mem)@.free_run(r.root() as int, ROOT_FRAMES as int),
            final(mem)@ == old(mem)@.allocate(r.root() as int, ROOT_FRAMES as int),
            r.root_frame().frame_count == ROOT_FRAMES,
            r.intrm_frames() == Seq::<Frame>::empty(),
            r.tracks(final(mem)@),
    {
        let r = Level3PageTable {
            inner: Level3PageTableUnlocked::new(mem),
            clonee_lock: Arc::new(new_lock()),
        };
        proof {
            let root = r.root() as int;
            law_new(old(mem)@, root);
            assert forall|vaddr: int| #[trigger] r.translation(mem@, vaddr) == Err::<
                (int, MemFlags, PageSize),
                PagingError,
            >(PagingError::NotMapped) by {
                assert(mem@.leaf(root, vaddr) is Err);
            }
        }
        r
    }

    fn map(&mut self, mem: &mut PhysMemory<PTE>, region: &MemoryRegion<VA>) -> (r: HvResult)
        ensures
            ({
                let done = old(mem)@.map_run(
                    old(self).root() as int,
                    region.start.number() as int,
                    region.size as int,
                    region.flags,
                    region.mapper,
                );
                &&& final(mem)@ == done.mem
                &&& final(self).intrm_frames() == old(self).intrm_frames() + single_frames(done.taken)
                &&& match (r, done.result) {
                    (Ok(_), Ok(_)) => true,
                    (Err(err), Err(e)) => err.reports(e),
                    _ => false,
                }
            }),
            mapped_up_to(
                old(mem)@,
                final(mem)@,
                old(self).root() as int,
                region.start.number() as int,
                region.size as int,
                old(self).map_stop(old(mem)@, *region),
                region.flags,
                region.mapper,
            ),
            old(self).tracks(old(mem)@) ==> final(self).tracks(final(mem)@),
            final(self).root_frame() == old(self).root_frame(),
            final(self).shared_lock() == old(self).shared_lock(),
            old(self).lock_taken(),
    {
        let _lock = hold(&self.clonee_lock);
        let mut vaddr: usize = region.start.into_usize();
        let mut size: usize = region.size;
        let ghost root = self.inner.inner.root() as int;
        proof {
            law_map_run(mem@, root, vaddr, size, region.flags, region.mapper);
            law_map_translations(mem@, root, vaddr, size, region.flags, region.mapper);
            law_map_grows(mem@, root, vaddr, size, region.flags, region.mapper);
        }
        let ghost whole = mem@.map_run(root, vaddr as int, size as int, region.flags, region.mapper);
        let ghost frames = self.inner.intrm_tables@;
        proof {
            if all_kept(mem@, root, frames) {
                lemma_all_kept(mem@, whole.mem, root, frames, whole.taken);
            }
        }
        let ghost stop = mem@.map_stop(root, vaddr as int, size as int, region.flags, region.mapper);
        let ghost mut taken: Seq<int> = Seq::empty();
        while size > 0
            invariant
                mem.wf(),
                mem@.tree(root),
                self.inner.inner == old(self).inner.inner,
                self.clonee_lock == old(self).clonee_lock,
                old(self).lock_taken(),
                self.inner.inner.root() == root,
                vaddr % PAGE_SIZE == 0,
                size % PAGE_SIZE == 0,
                vaddr + size <= usize::MAX,
                maps_no_table::<PTE>(vaddr as int, size as int, region.flags, region.mapper),
                self.inner.intrm_tables@ == frames + single_frames(taken),
                frames == old(self).inner.intrm_tables@,
                all_kept(old(mem)@, root, frames) ==> all_kept(
                    whole.mem,
                    root,
                    frames + single_frames(whole.taken),
                ),
                root == old(self).root(),
                whole == old(mem)@.map_run(
                    root,
                    region.start.number() as int,
                    region.size as int,
                    region.flags,
                    region.mapper,
                ),
                stop == old(mem)@.map_stop(
                    root,
                    region.start.number() as int,
                    region.size as int,
                    region.flags,
                    region.mapper,
                ),
                region.start.number() <= stop <= region.start.number() + region.size,
                whole.result is Ok <==> stop == region.start.number() + region.size,
                translated_up_to(
                    old(mem)@,
                    whole.mem,
                    root,
                    region.start.number() as int,
                    stop,
                    region.flags,
                    region.mapper,
                ),
                mapped_up_to(
                    old(mem)@,
                    whole.mem,
                    root,
                    region.start.number() as int,
                    region.size as int,
                    stop,
                    region.flags,
                    region.mapper,
                ),
                ({
                    let rest = mem@.map_run(
                        root,
                        vaddr as int,
                        size as int,
                        region.flags,
                        region.mapper,
                    );
                    &&& whole.mem == rest.mem
                    &&& whole.result == rest.result
                    &&& whole.taken == taken + rest.taken
                }),
            decreases size,
        {
            let paddr: usize = region.mapper.map_fn(vaddr);
            let page_size: PageSize = if PageSize::Size1G.is_aligned(vaddr)
                && PageSize::Size1G.is_aligned(paddr) && size >= PageSize::Size1G.bytes()
                && !region.flags.contains(MemFlags::NO_HUGEPAGES) {
                PageSize::Size1G
            } else if PageSize::Size2M.is_aligned(vaddr) && PageSize::Size2M.is_aligned(paddr)
                && size >= PageSize::Size2M.bytes() && !region.flags.contains(
                MemFlags::NO_HUGEPAGES,
            ) {
                PageSize::Size2M
            } else {
                PageSize::Size4K
            };
            assert(page_size == page_size_for(vaddr, paddr, size as int, region.flags));
            let page: Page<VA> = Page::new_aligned(VA::from_usize(vaddr), page_size);
            let ghost step = mem@.map_page(root, vaddr as int, page_size, paddr, region.flags);
            proof {
                lemma_map_step(mem@, root, vaddr, size, region.flags, region.mapper);
                taken = taken + step.taken;
            }
            match self.inner.map_page(mem, page, paddr, region.flags) {
                Ok(_) => {},
                Err(e) => {
                    assert(self.inner.intrm_tables@ =~= frames + single_frames(whole.taken));
                    return Err(HvError::from(e));
                },
            }
            vaddr = vaddr + page_size.bytes();
            size = size - page_size.bytes();
        }
        Ok(())
    }

    fn unmap(&mut self, mem: &mut PhysMemory<PTE>, region: &MemoryRegion<VA>) -> (r: HvResult)
        ensures
            ({
                let done = old(mem)@.unmap_run(
                    old(self).root() as int,
                    region.start.number() as int,
                    region.size as int,
                );
                &&& final(mem)@ == done.mem
                &&& match (r, done.result) {
                    (Ok(_), Ok(_)) => true,
                    (Err(err), Err(e)) => err.reports(e),
                    _ => false,
                }
            }),
            ({
                let root = old(self).root() as int;
                let stop = old(self).unmap_stop(old(mem)@, *region);
                &&& unmapped_up_to(
                    old(mem)@,
                    final(mem)@,
                    root,
                    region.start.number() as int,
                    stop,
                )
                &&& r is Err && region.size <= reach() ==> old(mem)@.leaf(root, stop) == Err::<
                    (PTE, PageSize),
                    PagingError,
                >(PagingError::NotMapped)
            }),
            old(self).tracks(old(mem)@) ==> final(self).tracks(final(mem)@),
            *final(self) == *old(self),
            old(self).lock_taken(),
    {
        let _lock = hold(&self.clonee_lock);
        let mut vaddr: usize = region.start.into_usize();
        let mut size: usize = region.size;
        let ghost root = self.inner.inner.root() as int;
        proof {
            law_unmap_run(mem@, root, vaddr, size);
            law_unmap_translations(mem@, root, vaddr, size);
            law_unmap_grows(mem@, root, vaddr, size);
        }
        let ghost whole = mem@.unmap_run(root, vaddr as int, size as int);
        let ghost frames = self.inner.intrm_tables@;
        proof {
            if all_kept(mem@, root, frames) {
                lemma_all_kept(mem@, whole.mem, root, frames, Seq::empty());
                assert(frames + single_frames(Seq::empty()) =~= frames);
            }
        }
        let ghost stop = mem@.unmap_stop(root, vaddr as int, size as int);
        while size > 0
            invariant
                mem.wf(),
                mem@.tree(root),
                *self == *old(self),
                old(self).lock_taken(),
                frames == self.inner.intrm_tables@,
                all_kept(old(mem)@, root, frames) ==> all_kept(whole.mem, root, frames),
                self.inner.inner.root() == root,
                vaddr + size <= usize::MAX,
                mem@.unmaps_whole_pages(root, vaddr as int, size as int),
                root == old(self).root(),
                whole == old(mem)@.unmap_run(
                    root,
                    region.start.number() as int,
                    region.size as int,
                ),
                whole == mem@.unmap_run(root, vaddr as int, size as int),
                stop == old(mem)@.unmap_stop(
                    root,
                    region.start.number() as int,
                    region.size as int,
                ),
                region.start.number() <= stop <= region.start.number() + region.size,
                whole.result is Ok <==> stop == region.start.number() + region.size,
                whole.result matches Err(e) ==> {
                    &&& e == PagingError::NotMapped
                    &&& region.size <= reach() ==> old(mem)@.leaf(root, stop) == Err::<
                        (PTE, PageSize),
                        PagingError,
                    >(PagingError::NotMapped)
                },
                untranslated_up_to(
                    old(mem)@,
                    whole.mem,
                    root,
                    region.start.number() as int,
                    stop,
                ),
                unmapped_up_to(
                    old(mem)@,
                    whole.mem,
                    root,
                    region.start.number() as int,
                    stop,
                ),
            decreases size,
        {
            proof {
                mem@.lemma_tree_walkable(root);
                lemma_unmap_step(mem@, root, vaddr, size);
            }
            let page_size: PageSize = match self.inner.unmap_page(mem, VA::from_usize(vaddr)) {
                Ok((_, page_size)) => page_size,
                Err(e) => {
                    return Err(HvError::from(e));
                },
            };
            vaddr = vaddr + page_size.bytes();
            size = size - page_size.bytes();
        }
        Ok(())
    }

    fn update(
        &mut self,
        mem: &mut PhysMemory<PTE>,
        vaddr: VA,
        paddr: PhysAddr,
        flags: MemFlags,
    ) -> (r: PagingResult<PageSize>)
        ensures
            ({
                let done = old(mem)@.update_page(
                    old(self).root() as int,
                    vaddr.number() as int,
                    paddr,
                    flags,
                );
                r == done.result && final(mem)@ == done.mem
            }),
            old(mem)@.update_keeps_tree(
                old(self).root() as int,
                vaddr.number() as int,
                paddr,
                flags,
            ) ==> {
                &&& final(self).wf(final(mem)@)
                &&& old(self).tracks(old(mem)@) ==> final(self).tracks(final(mem)@)
            },
            *final(self) == *old(self),
            old(self).lock_taken(),
    {
        let _lock = hold(&self.clonee_lock);
        proof {
            let root = self.root() as int;
            mem@.lemma_tree_walkable(root);
            law_update(mem@, root, vaddr.number() as int, paddr, flags);
            law_update_translations(mem@, root, vaddr.number() as int, paddr, flags);
            if mem@.update_keeps_tree(root, vaddr.number() as int, paddr, flags) {
                let frames = self.inner.intrm_tables@;
                let done = mem@.update_page(root, vaddr.number() as int, paddr, flags);
                law_update_grows(mem@, root, vaddr.number() as int, paddr, flags);
                if all_kept(mem@, root, frames) {
                    lemma_all_kept(mem@, done.mem, root, frames, Seq::empty());
                    assert(frames + single_frames(Seq::empty()) =~= frames);
                }
            }
        }
        self.inner.update(mem, vaddr, paddr, flags)
    }

    fn clone(&self, mem: &mut PhysMemory<PTE>) -> (r: Self)
        ensures
            old(mem)@.first_fit(ROOT_FRAMES as int) == Some(r.root() as int),
            old(mem)@.free_run(r.root() as int, ROOT_FRAMES as int),
            final(mem)@ == old(mem)@.clone_root(self.root() as int, r.root() as int),
            r.root_frame().frame_count == ROOT_FRAMES,
            r.intrm_frames() == Seq::<Frame>::empty(),
            r.shared_lock() == self.shared_lock(),
            final(mem)@.clones(self.root() as int, r.root() as int),
    {
        proof {
            mem@.lemma_tree_walkable(self.root() as int);
        }
        let mut pt = Self::clone_from(mem, self);
        proof {
            let root = self.root() as int;
            law_clone_root(old(mem)@, root, pt.root() as int);
            law_clone_made(old(mem)@, root, pt.root() as int);
            assert forall|vaddr: int| #[trigger] pt.translation(mem@, vaddr) == self.translation(
                old(mem)@,
                vaddr,
            ) by {
                assert(mem@.leaf(pt.root() as int, vaddr) == old(mem)@.leaf(root, vaddr));
            }
            assert forall|vaddr: int| #[trigger] self.translation(mem@, vaddr) == self.translation(
                old(mem)@,
                vaddr,
            ) by {
                assert(mem@.leaf(root, vaddr) == old(mem)@.leaf(root, vaddr));
            }
        }
        // clone with lock to avoid data racing between it and its clonees.
        pt.clonee_lock = self.clonee_lock.clone();
        pt
    }

    fn activate(&self)
        ensures
            call_ensures(I::activate, (self.root(),), ()),
    {
        I::activate(self.root_paddr())
    }

    fn flush(&self, vaddr: Option<VA>)
        ensures
            match vaddr {
                Some(va) => call_ensures(I::flush, (Some(va.number()),), ()),
                None => call_ensures(I::flush, (None::<usize>,), ()),
            },
    {
        match vaddr {
            Some(va) => I::flush(Some(va.into_usize())),
            None => I::flush(None),
        }
    }
}

/// A page table translates addresses as the tables behind its root do, and cannot tell addresses
/// apart whose distance is a multiple of half a terabyte.
pub proof fn law_level3<VA: VirtAddress, PTE: GenericPTE, I: PagingInstr>(
    pt: Level3PageTable<VA, PTE, I>,
    m: Memory<PTE>,
    vaddr: int,
    start: int,
    stop: int,
)
    ensures
        pt.translation(m, vaddr) == m.translate(pt.root() as int, vaddr),
        Level3PageTable::<VA, PTE, I>::hits(vaddr, start, stop) <==> (vaddr - start)
            % 0x80_0000_0000 < stop - start,
        pt.root() == pt.root_frame().start_paddr,
{
    law_root(pt.inner.inner);
}

/// What the page table shares and keeps is what is in its fields.
proof fn law_fields<VA: VirtAddress, PTE: GenericPTE, I: PagingInstr>(
    pt: Level3PageTable<VA, PTE, I>,
)
    ensures
        pt.shared_lock() == pt.clonee_lock,
        pt.intrm_frames() == pt.inner.intrm_tables@,
        pt.root_frame() == pt.inner.inner.root_frame(),
        pt.lock_taken() ==> exists|guard: spin::mutex::MutexGuard<'_, ()>| #[trigger]
            call_ensures(hold, (&*pt.clonee_lock,), guard),
{
}

} // verus!
