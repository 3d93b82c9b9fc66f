//! When a page, or a region, can be mapped.
use vstd::prelude::*;

use crate::addr::{PhysAddr, PAGE_SIZE};
use crate::change::{maps_no_table, page_entry, page_size_for};
use crate::entry::GenericPTE;
use crate::error::PagingError;
use crate::flags::MemFlags;
use crate::laws::{law_entry_or_create, lemma_map_step, lemma_page_fits};
use crate::lemmas::{lemma_offset_kept, lemma_same_page};
use crate::memory::{Memory, ROOT_FRAMES};
use crate::model::{is_table, reach, same_page, Slot};
use crate::page::{index1, index2, index3, PageSize};
use crate::region::Mapper;

verus! {

impl<PTE: GenericPTE> Memory<PTE> {
    /// The entry for the page of this size at `vaddr` is unused, or is not there yet.
    pub open spec fn vacant(self, root: int, vaddr: int, size: PageSize) -> bool {
        let i = index3(vaddr);
        let j = index2(vaddr);
        ||| self.entry(root, i) == PTE::zero()
        ||| size != PageSize::Size1G && self.has2(root, i) && {
            ||| self.entry(self.t2(root, i), j) == PTE::zero()
            ||| size == PageSize::Size4K && self.has1(root, i, j) && self.entry(
                self.t1(root, i, j),
                index1(vaddr),
            ) == PTE::zero()
        }
    }

    /// Every page by which a region of `left` bytes from `vaddr` on is to be mapped is vacant.
    pub open spec fn vacant_run(
        self,
        root: int,
        vaddr: int,
        left: int,
        flags: MemFlags,
        mapper: Mapper,
    ) -> bool
        decreases left,
    {
        left >= PAGE_SIZE ==> {
            let size = page_size_for(vaddr as usize, mapper.map_fn(vaddr as usize), left, flags);
            &&& self.vacant(root, vaddr, size)
            &&& self.vacant_run(root, vaddr + size.bytes(), left - size.bytes(), flags, mapper)
        }
    }

    proof fn lemma_vacant_link3(self, root: int, i: int, p: int, vaddr: int, size: PageSize)
        requires
            self.wf(),
            self.tree(root),
            0 <= i < 512,
            self.entry(root, i) == PTE::zero(),
            self.free_run(p, 1),
            self.vacant(root, vaddr, size),
            size == PageSize::Size1G ==> index3(vaddr) != i,
        ensures
            self.allocate(p, 1).put(
                Slot { table: root, index: i },
                PTE::zero().with_table(p as usize),
            ).vacant(root, vaddr, size),
    {
        self.lemma_free_run(p, 1, 0);
        self.lemma_link3(root, i, p);
        reveal(Memory::tree);
        let after = self.allocate(p, 1).put(
            Slot { table: root, index: i },
            PTE::zero().with_table(p as usize),
        );
        let k = index3(vaddr);
        let l = index2(vaddr);
        if k == i {
            assert(after.entry(p, l) == PTE::zero());
        } else {
            assert(after.entry(root, k) == self.entry(root, k));
            assert(self.has2(root, k) ==> after.entry(after.t2(root, k), l) == self.entry(
                self.t2(root, k),
                l,
            ));
            assert(self.has1(root, k, l) ==> after.entry(after.t1(root, k, l), index1(vaddr))
                == self.entry(self.t1(root, k, l), index1(vaddr)));
        }
    }

    proof fn lemma_vacant_link2(
        self,
        root: int,
        i: int,
        j: int,
        p: int,
        vaddr: int,
        size: PageSize,
    )
        requires
            self.wf(),
            self.tree(root),
            self.has2(root, i),
            0 <= j < 512,
            self.entry(self.t2(root, i), j) == PTE::zero(),
            self.free_run(p, 1),
            self.vacant(root, vaddr, size),
            size == PageSize::Size2M ==> index3(vaddr) != i || index2(vaddr) != j,
        ensures
            self.allocate(p, 1).put(
                Slot { table: self.t2(root, i), index: j },
                PTE::zero().with_table(p as usize),
            ).vacant(root, vaddr, size),
    {
        PTE::law_zero();
        self.lemma_free_run(p, 1, 0);
        self.lemma_link2(root, i, j, p);
        reveal(Memory::tree);
        let after = self.allocate(p, 1).put(
            Slot { table: self.t2(root, i), index: j },
            PTE::zero().with_table(p as usize),
        );
        let k = index3(vaddr);
        let l = index2(vaddr);
        assert(after.entry(root, k) == self.entry(root, k));
        if k == i && l == j {
            assert(after.entry(p, index1(vaddr)) == PTE::zero());
        } else {
            assert(self.has2(root, k) ==> after.entry(after.t2(root, k), l) == self.entry(
                self.t2(root, k),
                l,
            ));
            assert(self.has1(root, k, l) ==> after.entry(after.t1(root, k, l), index1(vaddr))
                == self.entry(self.t1(root, k, l), index1(vaddr)));
        }
    }

    proof fn lemma_vacant_put3(self, root: int, i: int, e: PTE, vaddr: int, size: PageSize)
        requires
            self.wf(),
            self.tree(root),
            0 <= i < 512,
            self.vacant(root, vaddr, size),
            index3(vaddr) != i,
        ensures
            self.put(Slot { table: root, index: i }, e).vacant(root, vaddr, size),
    {
        reveal(Memory::tree);
        let after = self.put(Slot { table: root, index: i }, e);
        let k = index3(vaddr);
        let l = index2(vaddr);
        assert(after.entry(root, k) == self.entry(root, k));
        assert(self.has2(root, k) ==> after.entry(after.t2(root, k), l) == self.entry(
            self.t2(root, k),
            l,
        ));
        assert(self.has1(root, k, l) ==> after.entry(after.t1(root, k, l), index1(vaddr))
            == self.entry(self.t1(root, k, l), index1(vaddr)));
    }

    proof fn lemma_vacant_put2(
        self,
        root: int,
        i: int,
        j: int,
        e: PTE,
        vaddr: int,
        size: PageSize,
    )
        requires
            self.wf(),
            self.tree(root),
            self.has2(root, i),
            0 <= j < 512,
            self.vacant(root, vaddr, size),
            index3(vaddr) != i || index2(vaddr) != j,
        ensures
            self.put(Slot { table: self.t2(root, i), index: j }, e).vacant(root, vaddr, size),
    {
        reveal(Memory::tree);
        let after = self.put(Slot { table: self.t2(root, i), index: j }, e);
        let k = index3(vaddr);
        let l = index2(vaddr);
        assert(after.entry(root, k) == self.entry(root, k));
        assert(self.has2(root, k) ==> after.entry(after.t2(root, k), l) == self.entry(
            self.t2(root, k),
            l,
        ));
        assert(self.has1(root, k, l) ==> after.entry(after.t1(root, k, l), index1(vaddr))
            == self.entry(self.t1(root, k, l), index1(vaddr)));
    }

    proof fn lemma_vacant_put1(
        self,
        root: int,
        i: int,
        j: int,
        x: int,
        e: PTE,
        vaddr: int,
        size: PageSize,
    )
        requires
            self.wf(),
            self.tree(root),
            self.has1(root, i, j),
            0 <= x < 512,
            self.vacant(root, vaddr, size),
            index3(vaddr) != i || index2(vaddr) != j || index1(vaddr) != x,
        ensures
            self.put(Slot { table: self.t1(root, i, j), index: x }, e).vacant(root, vaddr, size),
    {
        reveal(Memory::tree);
        let after = self.put(Slot { table: self.t1(root, i, j), index: x }, e);
        let k = index3(vaddr);
        let l = index2(vaddr);
        assert(self.has2(root, i));
        assert(after.entry(root, k) == self.entry(root, k));
        assert(self.has2(root, k) ==> after.entry(after.t2(root, k), l) == self.entry(
            self.t2(root, k),
            l,
        ));
        assert(self.has1(root, k, l) ==> after.entry(after.t1(root, k, l), index1(vaddr))
            == self.entry(self.t1(root, k, l), index1(vaddr)));
    }
}

/// Whether a page can be mapped, and why not: a vacant page can, as long as there is memory for its
/// tables; a page that is mapped, or that holds mapped pages, is refused as mapped; a page inside
/// a larger one is refused as such.
pub proof fn law_map_page_result<PTE: GenericPTE>(
    m: Memory<PTE>,
    root: int,
    vaddr: int,
    size: PageSize,
    paddr: PhysAddr,
    flags: MemFlags,
)
    requires
        m.wf(),
        m.tree(root),
    ensures
        ({
            let done = m.map_page(root, vaddr, size, paddr, flags);
            &&& m.vacant(root, vaddr, size) <==> {
                ||| done.result is Ok
                ||| done.result == Err::<Slot, PagingError>(PagingError::NoMemory)
            }
            &&& done.result == Err::<Slot, PagingError>(PagingError::NoMemory)
                ==> done.mem.first_fit(1) is None
            &&& match m.leaf(root, vaddr) {
                Ok((e, s)) => {
                    &&& s.bytes() <= size.bytes() ==> done.result == Err::<Slot, PagingError>(
                        PagingError::AlreadyMapped,
                    )
                    &&& s.bytes() > size.bytes() && e.present() ==> done.result == Err::<
                        Slot,
                        PagingError,
                    >(PagingError::MappedToHugePage)
                },
                Err(_) => done.result != Err::<Slot, PagingError>(PagingError::MappedToHugePage),
            }
        }),
{
    reveal(Memory::entry_or_create);
    reveal(Memory::map_page);
    reveal(Memory::leaf);
    PTE::law_zero();
    let i = index3(vaddr);
    let j = index2(vaddr);
    let s3 = Slot { table: root, index: i };
    if size != PageSize::Size1G {
        let second = m.next_or_create(s3);
        if m.at(s3) == PTE::zero() {
            m.lemma_fit(1);
            if let Some(p) = m.first_fit(1) {
                m.lemma_link3(root, i, p);
                assert(second.mem.entry(p, j) == PTE::zero());
            }
        }
        if let Ok(p2) = second.result {
            assert(second.mem.has2(root, i) && second.mem.t2(root, i) == p2);
            if size != PageSize::Size2M {
                let s2 = Slot { table: p2, index: j };
                let first = second.mem.next_or_create(s2);
                if second.mem.at(s2) == PTE::zero() {
                    second.mem.lemma_fit(1);
                    if let Some(p) = second.mem.first_fit(1) {
                        second.mem.lemma_link2(root, i, j, p);
                        assert(first.mem.entry(p, index1(vaddr)) == PTE::zero());
                    }
                }
            }
        }
    }
}

/// A page that is vacant stays so when another page is mapped.
pub proof fn law_vacant_kept<PTE: GenericPTE>(
    m: Memory<PTE>,
    root: int,
    vaddr: int,
    size: PageSize,
    paddr: PhysAddr,
    flags: MemFlags,
    other: int,
    other_size: PageSize,
)
    requires
        m.wf(),
        m.tree(root),
        0 <= vaddr,
        0 <= other,
        size == PageSize::Size4K || !is_table(page_entry::<PTE>(size, paddr, flags)),
        m.vacant(root, other, other_size),
        !same_page(vaddr, other, size),
        !same_page(vaddr, other, other_size),
    ensures
        m.map_page(root, vaddr, size, paddr, flags).mem.vacant(root, other, other_size),
{
    lemma_same_page(vaddr, other);
    let path = m.entry_or_create(root, vaddr, size);
    lemma_vacant_path(m, root, vaddr, size, other, other_size);
    reveal(Memory::map_page);
    let i = index3(vaddr);
    let j = index2(vaddr);
    let x = index1(vaddr);
    let e = page_entry::<PTE>(size, paddr, flags);
    law_entry_or_create(m, root, vaddr, size);
    if path.result is Ok {
        match size {
            PageSize::Size1G => path.mem.lemma_vacant_put3(root, i, e, other, other_size),
            PageSize::Size2M => path.mem.lemma_vacant_put2(root, i, j, e, other, other_size),
            PageSize::Size4K => path.mem.lemma_vacant_put1(root, i, j, x, e, other, other_size),
        }
    }
}

proof fn lemma_vacant_path<PTE: GenericPTE>(
    m: Memory<PTE>,
    root: int,
    vaddr: int,
    size: PageSize,
    other: int,
    other_size: PageSize,
)
    requires
        m.wf(),
        m.tree(root),
        0 <= vaddr,
        0 <= other,
        m.vacant(root, other, other_size),
        !same_page(vaddr, other, other_size),
    ensures
        m.entry_or_create(root, vaddr, size).mem.vacant(root, other, other_size),
{
    reveal(Memory::entry_or_create);
    lemma_same_page(vaddr, other);
    let i = index3(vaddr);
    let j = index2(vaddr);
    let s3 = Slot { table: root, index: i };
    if size != PageSize::Size1G {
        let second = m.next_or_create(s3);
        if m.at(s3) == PTE::zero() {
            m.lemma_fit(1);
            if let Some(p) = m.first_fit(1) {
                m.lemma_link3(root, i, p);
                m.lemma_vacant_link3(root, i, p, other, other_size);
            }
        }
        if let Ok(p2) = second.result {
            assert(second.mem.has2(root, i) && second.mem.t2(root, i) == p2);
            if size != PageSize::Size2M {
                let s2 = Slot { table: p2, index: j };
                if second.mem.at(s2) == PTE::zero() {
                    second.mem.lemma_fit(1);
                    if let Some(p) = second.mem.first_fit(1) {
                        second.mem.lemma_vacant_link2(root, i, j, p, other, other_size);
                    }
                }
            }
        }
    }
}

/// Pages that do not overlap are not the same.
proof fn lemma_pages_apart(a: int, a_size: PageSize, b: int, b_size: PageSize)
    requires
        0 <= a,
        a % a_size.bytes() as int == 0,
        b % b_size.bytes() as int == 0,
        a + a_size.bytes() <= b,
        b + b_size.bytes() <= a + reach(),
    ensures
        !same_page(a, b, a_size),
        !same_page(a, b, b_size),
{
    lemma_far_apart(a, b, a_size);
    lemma_far_apart(b, a + reach(), b_size);
    assert((a + reach()) % reach() == a % reach());
}

proof fn lemma_far_apart(a: int, b: int, size: PageSize)
    requires
        0 <= a,
        a % size.bytes() as int == 0,
        a + size.bytes() <= b < a + reach(),
    ensures
        !same_page(a, b, size),
{
    let unit = size.bytes() as int;
    let p = a % reach();
    let q = b % reach();
    lemma_offset_kept(a, size);
    assert(p % unit == 0);
    assert(q == if p + (b - a) < reach() {
        p + (b - a)
    } else {
        p + (b - a) - reach()
    });
    match size {
        PageSize::Size4K => {
            assert(q / 0x1000 == p / 0x1000 ==> p <= q < p + 0x1000);
        },
        PageSize::Size2M => {
            assert(q / 0x20_0000 == p / 0x20_0000 ==> p <= q < p + 0x20_0000);
        },
        PageSize::Size1G => {
            assert(q / 0x4000_0000 == p / 0x4000_0000 ==> p <= q < p + 0x4000_0000);
        },
    }
}

/// The pages of a region that are still to be mapped stay vacant when one before them is.
proof fn lemma_vacant_run_kept<PTE: GenericPTE>(
    m: Memory<PTE>,
    root: int,
    page: int,
    size: PageSize,
    paddr: PhysAddr,
    vaddr: usize,
    left: usize,
    flags: MemFlags,
    mapper: Mapper,
)
    requires
        m.wf(),
        m.tree(root),
        0 <= page,
        page % size.bytes() as int == 0,
        size == PageSize::Size4K || !is_table(page_entry::<PTE>(size, paddr, flags)),
        page + size.bytes() <= vaddr,
        vaddr + left <= page + reach(),
        vaddr + left <= usize::MAX,
        vaddr % PAGE_SIZE == 0,
        left % PAGE_SIZE == 0,
        m.vacant_run(root, vaddr as int, left as int, flags, mapper),
    ensures
        m.map_page(root, page, size, paddr, flags).mem.vacant_run(
            root,
            vaddr as int,
            left as int,
            flags,
            mapper,
        ),
    decreases left,
{
    if left > 0 {
        let next_size = page_size_for(vaddr, mapper.map_fn(vaddr), left as int, flags);
        lemma_page_fits(vaddr, mapper.map_fn(vaddr), left, flags);
        lemma_pages_apart(page, size, vaddr as int, next_size);
        law_vacant_kept(m, root, page, size, paddr, flags, vaddr as int, next_size);
        lemma_vacant_run_kept(
            m,
            root,
            page,
            size,
            paddr,
            (vaddr + next_size.bytes()) as usize,
            (left - next_size.bytes()) as usize,
            flags,
            mapper,
        );
    }
}

/// A region whose pages are all vacant, and that is no longer than the reach, is mapped unless
/// memory runs out.
pub proof fn law_map_vacant<PTE: GenericPTE>(
    m: Memory<PTE>,
    root: int,
    vaddr: usize,
    left: usize,
    flags: MemFlags,
    mapper: Mapper,
)
    requires
        m.wf(),
        m.tree(root),
        vaddr % PAGE_SIZE == 0,
        left % PAGE_SIZE == 0,
        vaddr + left <= usize::MAX,
        left <= reach(),
        maps_no_table::<PTE>(vaddr as int, left as int, flags, mapper),
        m.vacant_run(root, vaddr as int, left as int, flags, mapper),
    ensures
        ({
            let done = m.map_run(root, vaddr as int, left as int, flags, mapper);
            done.result matches Err(e) ==> e == PagingError::NoMemory && done.mem.first_fit(
                1,
            ) is None
        }),
    decreases left,
{
    if left > 0 {
        let paddr = mapper.map_fn(vaddr);
        let size = page_size_for(vaddr, paddr, left as int, flags);
        let page = m.map_page(root, vaddr as int, size, paddr, flags);
        lemma_map_step(m, root, vaddr, left, flags, mapper);
        law_map_page_result(m, root, vaddr as int, size, paddr, flags);
        if page.result is Ok {
            let next = (vaddr + size.bytes()) as usize;
            let rest = (left - size.bytes()) as usize;
            lemma_vacant_run_kept(
                m,
                root,
                vaddr as int,
                size,
                paddr,
                next,
                rest,
                flags,
                mapper,
            );
            law_map_vacant(page.mem, root, next, rest, flags, mapper);
        }
    }
}

/// In a new page table every region is vacant.
pub proof fn law_new_vacant<PTE: GenericPTE>(
    m: Memory<PTE>,
    root: int,
    vaddr: int,
    left: int,
    flags: MemFlags,
    mapper: Mapper,
)
    requires
        m.wf(),
        m.free_run(root, ROOT_FRAMES as int),
    ensures
        m.allocate(root, ROOT_FRAMES as int).vacant_run(root, vaddr, left, flags, mapper),
    decreases left,
{
    if left >= PAGE_SIZE {
        let size = page_size_for(vaddr as usize, mapper.map_fn(vaddr as usize), left, flags);
        m.lemma_free_run(root, ROOT_FRAMES as int, 0);
        assert(m.allocate(root, ROOT_FRAMES as int).vacant(root, vaddr, size));
        law_new_vacant(m, root, vaddr + size.bytes(), left - size.bytes(), flags, mapper);
    }
}

} // verus!
