//! The physical memory that holds page tables, and its frames.
use vstd::prelude::*;

use crate::addr::{PhysAddr, PAGE_SIZE};
use crate::entry::GenericPTE;
use crate::error::{HvError, HvErrorNum, HvResult, PagingError};
use crate::page::ENTRY_COUNT;

verus! {

/// Frames that a root table takes up, so that it can be aligned to 16 KiB.
pub const ROOT_FRAMES: usize = 4;

/// What the memory holds: a table in every frame, by the frame's address, and the frames that
/// are in use.
#[verifier::ext_equal]
pub struct Memory<PTE> {
    pub tables: Map<int, Seq<PTE>>,
    pub allocated: Set<int>,
}

impl<PTE: GenericPTE> Memory<PTE> {
    pub open spec fn wf(self) -> bool {
        &&& forall|p: int| #[trigger]
            self.tables.contains_key(p) ==> {
                &&& 0 <= p <= usize::MAX - PAGE_SIZE
                &&& p % PAGE_SIZE as int == 0
                &&& self.tables[p].len() == ENTRY_COUNT
                &&& PTE::holds_addr(p as usize)
            }
        &&& forall|p: int| #[trigger]
            self.allocated.contains(p) ==> self.tables.contains_key(p)
    }

    pub open spec fn entry(self, table: int, index: int) -> PTE {
        self.tables[table][index]
    }

    pub open spec fn set_entry(self, table: int, index: int, entry: PTE) -> Self {
        Memory {
            tables: self.tables.insert(table, self.tables[table].update(index, entry)),
            ..self
        }
    }

    /// `count` frames from `p` on, aligned to their own length, are there and not in use.
    pub open spec fn free_run(self, p: int, count: int) -> bool {
        &&& p % (count * PAGE_SIZE) == 0
        &&& forall|q: int|
            p <= q < p + count * PAGE_SIZE && q % PAGE_SIZE as int == 0
                ==> #[trigger] self.tables.contains_key(q) && !self.allocated.contains(q)
    }

    /// `p` is the lowest address at which `count` frames can be had.
    pub open spec fn is_first_fit(self, p: int, count: int) -> bool {
        &&& self.free_run(p, count)
        &&& forall|q: int| #[trigger] self.free_run(q, count) ==> p <= q
    }

    /// Where the next `count` frames come from, if there are so many together.
    pub open spec fn first_fit(self, count: int) -> Option<int> {
        if exists|p: int| self.is_first_fit(p, count) {
            Some(choose|p: int| self.is_first_fit(p, count))
        } else {
            None
        }
    }

    /// The memory after `count` frames from `p` on were taken into use and filled with zero.
    pub open spec fn allocate(self, p: int, count: int) -> Self {
        Memory {
            tables: Map::new(
                |q: int| self.tables.contains_key(q),
                |q: int|
                    if p <= q < p + count * PAGE_SIZE {
                        Seq::new(ENTRY_COUNT as nat, |i: int| PTE::zero())
                    } else {
                        self.tables[q]
                    },
            ),
            allocated: Set::new(
                |q: int|
                    self.allocated.contains(q) || (self.tables.contains_key(q) && p <= q < p + count
                        * PAGE_SIZE),
            ),
        }
    }

    /// The memory after the frame at `p` was taken into use as it is.
    pub open spec fn reserve(self, p: int) -> Self {
        Memory { allocated: self.allocated.insert(p), ..self }
    }

    /// Every frame of a free run is a frame that is not in use.
    pub proof fn lemma_free_run(self, p: int, count: int, k: int)
        requires
            self.free_run(p, count),
            0 <= k < count,
        ensures
            p % PAGE_SIZE as int == 0,
            self.tables.contains_key(p + k * PAGE_SIZE),
            !self.allocated.contains(p + k * PAGE_SIZE),
    {
        let n = p / (count * PAGE_SIZE);
        vstd::arithmetic::div_mod::lemma_fundamental_div_mod(p, count * PAGE_SIZE);
        assert(p == (count * n) * PAGE_SIZE) by (nonlinear_arith)
            requires
                p == (count * PAGE_SIZE) * n,
        ;
        assert((p + k * PAGE_SIZE) % PAGE_SIZE as int == 0);
    }

    /// Setting frames aside leaves the tables in use as they are.
    pub proof fn lemma_allocate_keeps(self, p: int, count: int, table: int)
        requires
            self.wf(),
            self.free_run(p, count),
            self.tables.contains_key(table),
            self.allocated.contains(table),
        ensures
            self.allocate(p, count).tables.contains_key(table),
            self.allocate(p, count).allocated.contains(table),
            self.allocate(p, count).tables[table] == self.tables[table],
            !(p <= table < p + count * PAGE_SIZE),
    {
    }

    /// There is at most one first fit.
    pub proof fn lemma_first_fit(self, p: int, count: int)
        requires
            self.is_first_fit(p, count),
        ensures
            self.first_fit(count) == Some(p),
    {
        let c = choose|c: int| self.is_first_fit(c, count);
        assert(self.is_first_fit(c, count));
        assert(c <= p && p <= c);
    }
}

/// Where frames can be had together, there is a first place to take them from.
pub proof fn law_first_fit<PTE: GenericPTE>(m: Memory<PTE>, p: int, count: int)
    requires
        m.wf(),
        count > 0,
        m.free_run(p, count),
    ensures
        m.first_fit(count) matches Some(q) && q <= p && m.free_run(q, count),
    decreases p,
{
    if m.is_first_fit(p, count) {
        m.lemma_first_fit(p, count);
    } else {
        let q = choose|q: int| #[trigger] m.free_run(q, count) && q < p;
        m.lemma_free_run(q, count, 0);
        m.lemma_free_run(p, count, 0);
        law_first_fit(m, q, count);
    }
}

/// A run of physical frames that a page table keeps.
#[derive(Debug)]
pub struct Frame {
    pub start_paddr: PhysAddr,
    pub frame_count: usize,
}

impl Frame {
    /// A frame that is taken as it is found at `paddr`, and that nothing was set aside for.
    pub fn from_paddr(paddr: PhysAddr) -> (r: Self)
        ensures
            r.start_paddr == paddr,
            r.frame_count == 0,
    {
        Frame { start_paddr: paddr, frame_count: 0 }
    }

    /// Sets a frame aside and fills it with zero.
    pub fn new_zero<PTE: GenericPTE>(mem: &mut PhysMemory<PTE>) -> (r: HvResult<Self>)
        requires
            old(mem).wf(),
        ensures
            final(mem).wf(),
            match r {
                Ok(frame) => {
                    &&& old(mem)@.first_fit(1) == Some(frame.start_paddr as int)
                    &&& old(mem)@.free_run(frame.start_paddr as int, 1)
                    &&& frame.frame_count == 1
                    &&& final(mem)@ == old(mem)@.allocate(frame.start_paddr as int, 1)
                },
                Err(err) => {
                    &&& old(mem)@.first_fit(1) is None
                    &&& final(mem)@ == old(mem)@
                    &&& err.reports(PagingError::NoMemory)
                },
            },
    {
        match mem.take(1) {
            Some(start_paddr) => Ok(Frame { start_paddr, frame_count: 1 }),
            None => Err(HvError { num: HvErrorNum::ENOMEM, msg: None }),
        }
    }

    /// Sets the frames of a root table aside, aligned to 16 KiB, and fills them with zero.
    pub fn new_16<PTE: GenericPTE>(mem: &mut PhysMemory<PTE>) -> (r: HvResult<Self>)
        requires
            old(mem).wf(),
        ensures
            final(mem).wf(),
            match r {
                Ok(frame) => {
                    &&& old(mem)@.first_fit(ROOT_FRAMES as int) == Some(frame.start_paddr as int)
                    &&& old(mem)@.free_run(frame.start_paddr as int, ROOT_FRAMES as int)
                    &&& frame.frame_count == ROOT_FRAMES
                    &&& final(mem)@ == old(mem)@.allocate(
                        frame.start_paddr as int,
                        ROOT_FRAMES as int,
                    )
                },
                Err(err) => {
                    &&& old(mem)@.first_fit(ROOT_FRAMES as int) is None
                    &&& final(mem)@ == old(mem)@
                    &&& err.reports(PagingError::NoMemory)
                },
            },
    {
        match mem.take(ROOT_FRAMES) {
            Some(start_paddr) => Ok(Frame { start_paddr, frame_count: ROOT_FRAMES }),
            None => Err(HvError { num: HvErrorNum::ENOMEM, msg: None }),
        }
    }

    pub fn start_paddr(&self) -> (r: PhysAddr)
        ensures
            r == self.start_paddr,
        opens_invariants none
    {
        self.start_paddr
    }
}

/// The physical memory from which frames for page tables are taken: consecutive frames, each
/// with room for one table.
pub struct PhysMemory<PTE> {
    base: PhysAddr,
    entries: Vec<PTE>,
    used: Vec<bool>,
}

impl<PTE: GenericPTE> View for PhysMemory<PTE> {
    type V = Memory<PTE>;

    closed spec fn view(&self) -> Memory<PTE> {
        Memory {
            tables: Map::new(
                |p: int| self.is_frame(p),
                |p: int|
                    self.entries@.subrange(
                        self.frame_no(p) * ENTRY_COUNT,
                        self.frame_no(p) * ENTRY_COUNT + ENTRY_COUNT,
                    ),
            ),
            allocated: Set::new(|p: int| self.is_frame(p) && self.used@[self.frame_no(p)]),
        }
    }
}

impl<PTE: GenericPTE> PhysMemory<PTE> {
    spec fn frame_no(&self, p: int) -> int {
        (p - self.base) / PAGE_SIZE as int
    }

    spec fn is_frame(&self, p: int) -> bool {
        &&& self.base <= p < self.base + self.used@.len() * PAGE_SIZE
        &&& p % PAGE_SIZE as int == 0
    }

    pub closed spec fn inv(&self) -> bool {
        &&& self.base % PAGE_SIZE == 0
        &&& self.entries@.len() == self.used@.len() * ENTRY_COUNT
        &&& self.base + self.used@.len() * PAGE_SIZE <= usize::MAX
    }

    pub open spec fn wf(&self) -> bool {
        self.inv() && self@.wf()
    }

    /// The memory whose frames begin at `base` and hold `entries`, none of them in use.
    pub fn new(base: PhysAddr, entries: Vec<PTE>) -> (r: Self)
        requires
            base % PAGE_SIZE == 0,
            entries@.len() % ENTRY_COUNT as nat == 0,
            base + entries@.len() / ENTRY_COUNT as nat * PAGE_SIZE <= usize::MAX,
            forall|p: usize|
                base <= p < base + entries@.len() / ENTRY_COUNT as nat * PAGE_SIZE && p % PAGE_SIZE
                    == 0 ==> #[trigger] PTE::holds_addr(p),
        ensures
            r.wf(),
            r@.allocated == Set::<int>::empty(),
            forall|p: int| #[trigger]
                r@.tables.contains_key(p) <==> base <= p < base + entries@.len()
                    / ENTRY_COUNT as nat * PAGE_SIZE && p % PAGE_SIZE as int == 0,
            forall|p: int| #[trigger]
                r@.tables.contains_key(p) ==> r@.tables[p] == entries@.subrange(
                    (p - base) / PAGE_SIZE as int * ENTRY_COUNT,
                    (p - base) / PAGE_SIZE as int * ENTRY_COUNT + ENTRY_COUNT,
                ),
    {
        let count: usize = entries.len() / ENTRY_COUNT;
        let mut used: Vec<bool> = Vec::new();
        while used.len() < count
            invariant
                used@.len() <= count,
                forall|k: int| 0 <= k < used@.len() ==> !#[trigger] used@[k],
            decreases count - used@.len(),
        {
            used.push(false);
        }
        let r = PhysMemory { base, entries, used };
        assert(r@.allocated =~= Set::<int>::empty());
        r
    }

    proof fn lemma_entry_changed(&self, other: Self, table: int, index: int, e: PTE)
        requires
            self.wf(),
            self@.tables.contains_key(table),
            0 <= index < ENTRY_COUNT,
            other.base == self.base,
            other.used == self.used,
            other.entries@ == self.entries@.update(self.frame_no(table) * ENTRY_COUNT + index, e),
        ensures
            other.wf(),
            other@ == self@.set_entry(table, index, e),
    {
        let after = self@.set_entry(table, index, e);
        assert forall|p: int| other@.tables.contains_key(p) implies #[trigger] other@.tables[p]
            == after.tables[p] by {
            assert(other@.tables[p] =~= after.tables[p]);
        }
        assert(other@.tables =~= after.tables);
        assert(other@.allocated =~= after.allocated);
    }

    /// The entry at `index` of the table at `table`.
    pub fn entry(&self, table: PhysAddr, index: usize) -> (r: &PTE)
        requires
            self.wf(),
            self@.tables.contains_key(table as int),
            index < ENTRY_COUNT,
        ensures
            *r == self@.entry(table as int, index as int),
    {
        let k: usize = (table - self.base) / PAGE_SIZE;
        &self.entries[k * ENTRY_COUNT + index]
    }

    /// The entry at `index` of the table at `table`, to be changed in place.
    pub fn entry_mut(&mut self, table: PhysAddr, index: usize) -> (r: &mut PTE)
        requires
            old(self).wf(),
            old(self)@.tables.contains_key(table as int),
            index < ENTRY_COUNT,
        ensures
            *r == old(self)@.entry(table as int, index as int),
            final(self)@ == old(self)@.set_entry(table as int, index as int, *final(r)),
            final(self).wf(),
    {
        let k: usize = (table - self.base) / PAGE_SIZE;
        proof {
            assert forall|other: Self, e: PTE|
                #![trigger other@, self@.set_entry(table as int, index as int, e)]
                other.base == self.base && other.used == self.used && other.entries@
                    == self.entries@.update(k * ENTRY_COUNT + index, e) implies other@
                == self@.set_entry(table as int, index as int, e) && other.wf() by {
                self.lemma_entry_changed(other, table as int, index as int, e);
            }
        }
        &mut self.entries[k * ENTRY_COUNT + index]
    }

    /// Fills the table at `dst` with clones of the entries of the table at `src`.
    pub(crate) fn copy_table(&mut self, src: PhysAddr, dst: PhysAddr)
        requires
            old(self).wf(),
            old(self)@.tables.contains_key(src as int),
            old(self)@.tables.contains_key(dst as int),
        ensures
            final(self).wf(),
            final(self)@.allocated == old(self)@.allocated,
            final(self)@.tables == old(self)@.tables.insert(
                dst as int,
                old(self)@.tables[src as int],
            ),
    {
        let ghost from = self@.tables[src as int];
        let ghost to = self@.tables[dst as int];
        proof {
            assert(from.take(0) + to.skip(0) =~= to);
            assert(self@.tables =~= self@.tables.insert(dst as int, to));
        }
        let mut i: usize = 0;
        while i < ENTRY_COUNT
            invariant
                self.wf(),
                old(self)@.tables.contains_key(src as int),
                old(self)@.tables.contains_key(dst as int),
                from == old(self)@.tables[src as int],
                to == old(self)@.tables[dst as int],
                from.len() == ENTRY_COUNT,
                to.len() == ENTRY_COUNT,
                i <= ENTRY_COUNT,
                self@.allocated == old(self)@.allocated,
                self@.tables == old(self)@.tables.insert(
                    dst as int,
                    from.take(i as int) + to.skip(i as int),
                ),
            decreases ENTRY_COUNT - i,
        {
            let entry = self.entry(src, i).clone();
            proof {
                PTE::law_clone(self@.entry(src as int, i as int), entry);
                let so_far = from.take(i as int) + to.skip(i as int);
                let next = from.take(i + 1) + to.skip(i + 1);
                assert(so_far.update(i as int, from[i as int]) =~= next);
                assert(old(self)@.tables.insert(dst as int, so_far).insert(dst as int, next)
                    =~= old(self)@.tables.insert(dst as int, next));
            }
            *self.entry_mut(dst, i) = entry;
            i = i + 1;
        }
        assert(from.take(i as int) + to.skip(i as int) =~= from);
    }

    /// Whether the frames from number `k` on, `count` of them, can be taken together.
    fn fits(&self, k: usize, count: usize) -> (r: bool)
        requires
            self.wf(),
            k < self.used@.len(),
            0 < count <= ENTRY_COUNT,
        ensures
            r == self@.free_run(self.base + k * PAGE_SIZE, count as int),
    {
        let ghost p = self.base + k * PAGE_SIZE;
        if (self.base + k * PAGE_SIZE) % (count * PAGE_SIZE) != 0 {
            return false;
        }
        if count > self.used.len() - k {
            proof {
                let q = self.base + self.used@.len() * PAGE_SIZE;
                assert(!self@.tables.contains_key(q));
            }
            return false;
        }
        let mut j: usize = 0;
        while j < count
            invariant
                self.wf(),
                p == self.base + k * PAGE_SIZE,
                k + count <= self.used@.len(),
                j <= count,
                p % (count * PAGE_SIZE) == 0,
                forall|q: int|
                    p <= q < p + j * PAGE_SIZE && q % PAGE_SIZE as int == 0
                        ==> #[trigger] self@.tables.contains_key(q) && !self@.allocated.contains(q),
            decreases count - j,
        {
            if self.used[k + j] {
                proof {
                    let q = p + j * PAGE_SIZE;
                    assert(self.frame_no(q) == k + j);
                    assert(self@.tables.contains_key(q));
                    assert(self@.allocated.contains(q));
                }
                return false;
            }
            assert forall|q: int|
                p <= q < p + (j + 1) * PAGE_SIZE && q % PAGE_SIZE as int
                    == 0 implies #[trigger] self@.tables.contains_key(q)
                && !self@.allocated.contains(q) by {
                if q >= p + j * PAGE_SIZE {
                    assert(self.frame_no(q) == k + j);
                }
            }
            j = j + 1;
        }
        true
    }

    /// Marks the frames from number `k` on, `count` of them, and clears their entries.
    fn fill(&mut self, k: usize, count: usize)
        requires
            old(self).wf(),
            0 < count <= ENTRY_COUNT,
            k + count <= old(self).used@.len(),
        ensures
            final(self).wf(),
            final(self)@ == old(self)@.allocate(old(self).base + k * PAGE_SIZE, count as int),
    {
        assert(k + count <= self.used.len());
        let end: usize = k + count;
        let mut j: usize = k;
        while j < end
            invariant
                k <= j <= end,
                end == k + count <= old(self).used@.len(),
                self.base == old(self).base,
                self.entries@ == old(self).entries@,
                self.used@.len() == old(self).used@.len(),
                forall|n: int|
                    0 <= n < self.used@.len() ==> #[trigger] self.used@[n] == (old(self).used@[n]
                        || k <= n < j),
            decreases end - j,
        {
            self.used.set(j, true);
            j = j + 1;
        }
        let mut i: usize = k * ENTRY_COUNT;
        while i < end * ENTRY_COUNT
            invariant
                old(self).wf(),
                k * ENTRY_COUNT <= i <= end * ENTRY_COUNT,
                end == k + count <= old(self).used@.len(),
                end * ENTRY_COUNT <= usize::MAX,
                self.base == old(self).base,
                self.entries@.len() == old(self).entries@.len(),
                self.used@.len() == old(self).used@.len(),
                forall|n: int|
                    0 <= n < self.used@.len() ==> #[trigger] self.used@[n] == (old(self).used@[n]
                        || k <= n < k + count),
                forall|n: int|
                    0 <= n < self.entries@.len() ==> #[trigger] self.entries@[n] == if k
                        * ENTRY_COUNT <= n < i {
                        PTE::zero()
                    } else {
                        old(self).entries@[n]
                    },
            decreases end * ENTRY_COUNT - i,
        {
            let entry = &mut self.entries[i];
            entry.clear();
            i = i + 1;
        }
        proof {
            let p = old(self).base + k * PAGE_SIZE;
            let after = old(self)@.allocate(p, count as int);
            assert forall|q: int| self@.tables.contains_key(q) implies #[trigger] self@.tables[q]
                == after.tables[q] by {
                let n = self.frame_no(q);
                assert(p <= q < p + count * PAGE_SIZE <==> k <= n < k + count);
                assert(self@.tables[q] =~= after.tables[q]);
            }
            assert(self@.tables =~= after.tables);
            assert forall|q: int| self@.allocated.contains(q) == after.allocated.contains(q) by {
                let n = self.frame_no(q);
                if self.is_frame(q) {
                    assert(p <= q < p + count * PAGE_SIZE <==> k <= n < k + count);
                    assert(self.used@[n] == (old(self).used@[n] || k <= n < k + count));
                }
            }
            assert(self@.allocated =~= after.allocated);
        }
    }

    /// The number of the first of `count` frames that can be taken together.
    fn find(&self, count: usize) -> (r: Option<usize>)
        requires
            self.wf(),
            0 < count <= ENTRY_COUNT,
        ensures
            match r {
                Some(k) => {
                    &&& k + count <= self.used@.len()
                    &&& self@.first_fit(count as int) == Some(self.base + k * PAGE_SIZE)
                    &&& self@.free_run(self.base + k * PAGE_SIZE, count as int)
                },
                None => self@.first_fit(count as int) is None,
            },
    {
        let mut k: usize = 0;
        proof {
            assert forall|q: int| #[trigger] self@.free_run(q, count as int) implies self.base
                <= q by {
                self@.lemma_free_run(q, count as int, 0);
            }
        }
        while k < self.used.len()
            invariant
                self.wf(),
                0 < count <= ENTRY_COUNT,
                k <= self.used@.len(),
                forall|q: int| #[trigger]
                    self@.free_run(q, count as int) ==> self.base + k * PAGE_SIZE <= q,
            decreases self.used@.len() - k,
        {
            if self.fits(k, count) {
                proof {
                    let p = self.base + k * PAGE_SIZE;
                    self@.lemma_first_fit(p, count as int);
                    self@.lemma_free_run(p, count as int, count - 1);
                }
                return Some(k);
            }
            proof {
                assert forall|q: int| #[trigger] self@.free_run(q, count as int) implies self.base
                    + (k + 1) * PAGE_SIZE <= q by {
                    self@.lemma_free_run(q, count as int, 0);
                    assert(self.base + k * PAGE_SIZE != q);
                }
            }
            k = k + 1;
        }
        proof {
            assert forall|q: int| !#[trigger] self@.free_run(q, count as int) by {
                if self@.free_run(q, count as int) {
                    self@.lemma_free_run(q, count as int, 0);
                }
            }
        }
        None
    }

    /// Takes `count` frames, aligned to their own length, into use and fills them with zero.
    fn take(&mut self, count: usize) -> (r: Option<PhysAddr>)
        requires
            old(self).wf(),
            0 < count <= ENTRY_COUNT,
        ensures
            final(self).wf(),
            match r {
                Some(p) => {
                    &&& old(self)@.first_fit(count as int) == Some(p as int)
                    &&& old(self)@.free_run(p as int, count as int)
                    &&& final(self)@ == old(self)@.allocate(p as int, count as int)
                },
                None => {
                    &&& old(self)@.first_fit(count as int) is None
                    &&& *final(self) == *old(self)
                },
            },
    {
        match self.find(count) {
            Some(k) => {
                let p: usize = self.base + k * PAGE_SIZE;
                self.fill(k, count);
                Some(p)
            },
            None => None,
        }
    }

    /// Takes the frame at `paddr` into use as it is, with the table that it holds.
    pub fn reserve(&mut self, paddr: PhysAddr)
        requires
            old(self).wf(),
            old(self)@.tables.contains_key(paddr as int),
        ensures
            final(self).wf(),
            final(self)@ == old(self)@.reserve(paddr as int),
    {
        let k: usize = (paddr - self.base) / PAGE_SIZE;
        self.used.set(k, true);
        proof {
            let after = old(self)@.reserve(paddr as int);
            assert(self@.tables =~= after.tables);
            assert forall|q: int| self@.allocated.contains(q) == after.allocated.contains(q) by {
                if self.is_frame(q) && q != paddr {
                    assert(self.frame_no(q) != k);
                }
            }
            assert(self@.allocated =~= after.allocated);
        }
    }

    /// Whether there is a frame at `paddr`.
    pub fn has_frame(&self, paddr: PhysAddr) -> (r: bool)
        requires
            self.wf(),
        ensures
            r == self@.tables.contains_key(paddr as int),
    {
        self.base <= paddr && paddr - self.base < self.used.len() * PAGE_SIZE && paddr % PAGE_SIZE
            == 0
    }

    /// Whether a root frame can be had.
    pub fn has_root_frame(&self) -> (r: bool)
        requires
            self.wf(),
        ensures
            r == (self@.first_fit(ROOT_FRAMES as int) is Some),
    {
        self.find(ROOT_FRAMES).is_some()
    }
}

} // verus!
