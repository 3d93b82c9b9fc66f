//! What holds of the tables that a page table is made of.
use vstd::prelude::*;

use crate::addr::{PhysAddr, PAGE_SIZE};
use crate::change::{maps_no_table, page_entry, page_size_for};
use crate::entry::GenericPTE;
use crate::flags::MemFlags;
use crate::laws::{law_entry_or_create, lemma_map_step, lemma_unmap_step};
use crate::memory::Memory;
use crate::model::{is_table, Slot};
use crate::page::{index1, index2, index3, PageSize};
use crate::region::Mapper;

verus! {

impl<PTE: GenericPTE> Memory<PTE> {
    /// From `self` to `after`, the page table at `root` set the frames `taken` aside and made
    /// tables of them; no table in use but its own was changed.
    pub open spec fn grows(self, after: Self, root: int, taken: Seq<int>) -> bool {
        &&& after.tables.dom() == self.tables.dom()
        &&& taken.no_duplicates()
        &&& forall|t: int| #[trigger]
            taken.contains(t) ==> self.tables.contains_key(t) && !self.allocated.contains(t)
        &&& forall|t: int| #[trigger]
            after.allocated.contains(t) <==> self.allocated.contains(t) || taken.contains(t)
        &&& forall|t: int| #[trigger]
            after.owns(root, t) <==> self.owns(root, t) || taken.contains(t)
        &&& forall|t: int|
            self.live(t) && !self.owns(root, t) ==> #[trigger] after.tables[t] == self.tables[t]
    }

    /// No table belongs to both page tables.
    pub open spec fn apart(self, a: int, b: int) -> bool {
        forall|t: int| #[trigger] self.owns(b, t) ==> !self.owns(a, t)
    }

    /// Every table that the page table owns is in use.
    pub proof fn lemma_owned_live(self, root: int)
        requires
            self.tree(root),
        ensures
            forall|t: int| #[trigger] self.owns(root, t) ==> self.live(t),
    {
        reveal(Memory::tree);
    }

    proof fn lemma_grows_twice(
        self,
        middle: Self,
        after: Self,
        root: int,
        first: Seq<int>,
        second: Seq<int>,
    )
        requires
            self.grows(middle, root, first),
            middle.grows(after, root, second),
        ensures
            self.grows(after, root, first + second),
    {
        let taken = first + second;
        assert forall|t: int| #[trigger] taken.contains(t) <==> first.contains(t)
            || second.contains(t) by {
            if first.contains(t) {
                let k = choose|k: int| 0 <= k < first.len() && first[k] == t;
                assert(taken[k] == t);
            }
            if second.contains(t) {
                let k = choose|k: int| 0 <= k < second.len() && second[k] == t;
                assert(taken[first.len() + k] == t);
            }
        }
        assert(taken.no_duplicates()) by {
            assert forall|a: int, b: int| 0 <= a < taken.len() && 0 <= b < taken.len() && a
                != b implies taken[a] != taken[b] by {
                if a < first.len() && b >= first.len() {
                    assert(first.contains(taken[a]));
                    assert(second.contains(taken[b]));
                }
                if b < first.len() && a >= first.len() {
                    assert(first.contains(taken[b]));
                    assert(second.contains(taken[a]));
                }
            }
        }
        assert forall|t: int| self.live(t) && !self.owns(root, t) implies #[trigger] after.tables[t]
            == self.tables[t] by {
            assert(middle.allocated.contains(t));
            assert(!first.contains(t));
            assert(!middle.owns(root, t));
            assert(middle.live(t));
            assert(middle.tables[t] == self.tables[t]);
        }
    }

    /// An entry of an owned table is changed, and the shape stays.
    proof fn lemma_grows_put(self, root: int, slot: Slot, e: PTE)
        requires
            self.tables.contains_key(slot.table),
            self.owns(root, slot.table),
            self.same_shape(self.put(slot, e), root),
        ensures
            self.grows(self.put(slot, e), root, Seq::empty()),
    {
        self.lemma_same_shape(self.put(slot, e), root);
        assert(self.put(slot, e).tables.dom() =~= self.tables.dom());
    }

    /// An unused entry of an owned table is given a table.
    proof fn lemma_grows_link(self, root: int, slot: Slot, p: int, e: PTE)
        requires
            self.wf(),
            self.tables.contains_key(slot.table),
            self.owns(root, slot.table),
            self.free_run(p, 1),
            forall|t: int| #[trigger]
                self.allocate(p, 1).put(slot, e).owns(root, t) <==> self.owns(root, t) || t == p,
        ensures
            self.grows(self.allocate(p, 1).put(slot, e), root, seq![p]),
    {
        let after = self.allocate(p, 1).put(slot, e);
        self.lemma_free_run(p, 1, 0);
        assert(after.tables.dom() =~= self.tables.dom());
        assert forall|t: int| #[trigger] seq![p].contains(t) <==> t == p by {
            assert(seq![p][0] == p);
        }
    }
}

/// Making the tables above a page sets aside the frames that it says, and owns them.
pub proof fn law_entry_or_create_grows<PTE: GenericPTE>(
    m: Memory<PTE>,
    root: int,
    vaddr: int,
    size: PageSize,
)
    requires
        m.wf(),
        m.tree(root),
    ensures
        ({
            let done = m.entry_or_create(root, vaddr, size);
            m.grows(done.mem, root, done.taken)
        }),
{
    reveal(Memory::entry_or_create);
    m.lemma_tree_walkable(root);
    let i = index3(vaddr);
    let j = index2(vaddr);
    let s3 = Slot { table: root, index: i };
    if size != PageSize::Size1G {
        let second = m.next_or_create(s3);
        if m.at(s3) == PTE::zero() {
            m.lemma_fit(1);
            if let Some(p) = m.first_fit(1) {
                m.lemma_link3(root, i, p);
                m.lemma_grows_link(root, s3, p, PTE::zero().with_table(p as usize));
            }
        }
        assert(m.grows(second.mem, root, second.taken));
        if let Ok(p2) = second.result {
            if size != PageSize::Size2M {
                let s2 = Slot { table: p2, index: j };
                let first = second.mem.next_or_create(s2);
                law_entry_or_create(m, root, vaddr, PageSize::Size2M);
                assert(second.mem.has2(root, i) && second.mem.t2(root, i) == p2);
                second.mem.lemma_tree_walkable(root);
                if second.mem.at(s2) == PTE::zero() {
                    second.mem.lemma_fit(1);
                    if let Some(p) = second.mem.first_fit(1) {
                        second.mem.lemma_link2(root, i, j, p);
                        second.mem.lemma_grows_link(
                            root,
                            s2,
                            p,
                            PTE::zero().with_table(p as usize),
                        );
                    }
                }
                assert(second.mem.grows(first.mem, root, first.taken));
                m.lemma_grows_twice(second.mem, first.mem, root, second.taken, first.taken);
            }
        }
    }
}

/// Mapping a page sets aside the frames that it says, makes tables of them, and changes no other
/// table in use than those of the page table.
pub proof fn law_map_page_grows<PTE: GenericPTE>(
    m: Memory<PTE>,
    root: int,
    vaddr: int,
    size: PageSize,
    paddr: PhysAddr,
    flags: MemFlags,
)
    requires
        m.wf(),
        m.tree(root),
        size == PageSize::Size4K || !is_table(page_entry::<PTE>(size, paddr, flags)),
    ensures
        ({
            let done = m.map_page(root, vaddr, size, paddr, flags);
            m.grows(done.mem, root, done.taken)
        }),
{
    reveal(Memory::map_page);
    let i = index3(vaddr);
    let j = index2(vaddr);
    let x = index1(vaddr);
    let path = m.entry_or_create(root, vaddr, size);
    let done = m.map_page(root, vaddr, size, paddr, flags);
    let e = page_entry::<PTE>(size, paddr, flags);
    law_entry_or_create(m, root, vaddr, size);
    law_entry_or_create_grows(m, root, vaddr, size);
    PTE::law_zero();
    if let Ok(slot) = done.result {
        path.mem.lemma_tree_walkable(root);
        match size {
            PageSize::Size1G => {
                path.mem.lemma_put3(root, i, e);
            },
            PageSize::Size2M => {
                path.mem.lemma_put2(root, i, j, e);
            },
            PageSize::Size4K => {
                path.mem.lemma_put1(root, i, j, x, e);
            },
        }
        path.mem.lemma_grows_put(root, slot, e);
        m.lemma_grows_twice(path.mem, done.mem, root, path.taken, Seq::empty());
        assert(path.taken + Seq::<int>::empty() =~= path.taken);
    }
}

/// Mapping a region keeps account of all intermediate tables: the tables that belong to the page
/// table afterwards are those that did before and those that mapping took frames for. The frames
/// were free, each was taken once, no other frame is in use that was not before, and no table in
/// use was changed that belongs to something else.
pub proof fn law_map_grows<PTE: GenericPTE>(
    m: Memory<PTE>,
    root: int,
    vaddr: usize,
    left: usize,
    flags: MemFlags,
    mapper: Mapper,
)
    requires
        m.wf(),
        m.tree(root),
        vaddr % PAGE_SIZE == 0,
        left % PAGE_SIZE == 0,
        vaddr + left <= usize::MAX,
        maps_no_table::<PTE>(vaddr as int, left as int, flags, mapper),
    ensures
        ({
            let done = m.map_run(root, vaddr as int, left as int, flags, mapper);
            m.grows(done.mem, root, done.taken)
        }),
    decreases left,
{
    let done = m.map_run(root, vaddr as int, left as int, flags, mapper);
    if left > 0 {
        let paddr = mapper.map_fn(vaddr);
        let size = page_size_for(vaddr, paddr, left as int, flags);
        let page = m.map_page(root, vaddr as int, size, paddr, flags);
        lemma_map_step(m, root, vaddr, left, flags, mapper);
        law_map_page_grows(m, root, vaddr as int, size, paddr, flags);
        if page.result is Ok {
            let next = (vaddr + size.bytes()) as usize;
            let rest = (left - size.bytes()) as usize;
            law_map_grows(page.mem, root, next, rest, flags, mapper);
            let behind = page.mem.map_run(root, next as int, rest as int, flags, mapper);
            m.lemma_grows_twice(page.mem, done.mem, root, page.taken, behind.taken);
        }
    }
}

/// Unmapping a page keeps every table, and changes none of another page table.
pub proof fn law_unmap_page_grows<PTE: GenericPTE>(m: Memory<PTE>, root: int, vaddr: int)
    requires
        m.wf(),
        m.tree(root),
    ensures
        m.grows(m.unmap_page(root, vaddr).mem, root, Seq::empty()),
{
    reveal(Memory::unmap_page);
    PTE::law_zero();
    if m.unmap_page(root, vaddr).result is Ok {
        lemma_located_grows(m, root, vaddr, PTE::zero());
    }
}

/// Unmapping a region keeps every table, and changes none of another page table.
pub proof fn law_unmap_grows<PTE: GenericPTE>(m: Memory<PTE>, root: int, vaddr: usize, left: usize)
    requires
        m.wf(),
        m.tree(root),
        vaddr + left <= usize::MAX,
        m.unmaps_whole_pages(root, vaddr as int, left as int),
    ensures
        m.grows(m.unmap_run(root, vaddr as int, left as int).mem, root, Seq::empty()),
    decreases left,
{
    if left > 0 {
        let page = m.unmap_page(root, vaddr as int);
        lemma_unmap_step(m, root, vaddr, left);
        law_unmap_page_grows(m, root, vaddr as int);
        if let Ok((_, size)) = page.result {
            let next = (vaddr + size.bytes()) as usize;
            let rest = (left - size.bytes()) as usize;
            law_unmap_grows(page.mem, root, next, rest);
            let after = page.mem.unmap_run(root, next as int, rest as int).mem;
            m.lemma_grows_twice(page.mem, after, root, Seq::empty(), Seq::empty());
            assert(Seq::<int>::empty() + Seq::<int>::empty() =~= Seq::<int>::empty());
        }
    }
}

/// Changing the mapping of a page keeps every table, and changes none of another page table.
pub proof fn law_update_grows<PTE: GenericPTE>(
    m: Memory<PTE>,
    root: int,
    vaddr: int,
    paddr: PhysAddr,
    flags: MemFlags,
)
    requires
        m.wf(),
        m.tree(root),
        m.update_keeps_tree(root, vaddr, paddr, flags),
    ensures
        m.grows(m.update_page(root, vaddr, paddr, flags).mem, root, Seq::empty()),
{
    if let Ok((slot, _)) = m.locate(root, vaddr) {
        lemma_located_grows(m, root, vaddr, m.at(slot).with_addr(paddr).with_flags(flags));
    }
}

proof fn lemma_located_grows<PTE: GenericPTE>(m: Memory<PTE>, root: int, vaddr: int, e: PTE)
    requires
        m.wf(),
        m.tree(root),
        m.locate(root, vaddr) is Ok,
        m.locate(root, vaddr)->Ok_0.1 == PageSize::Size4K || !is_table(e),
    ensures
        m.grows(m.put(m.locate(root, vaddr)->Ok_0.0, e), root, Seq::empty()),
{
    let i = index3(vaddr);
    let j = index2(vaddr);
    let x = index1(vaddr);
    let (slot, size) = m.locate(root, vaddr)->Ok_0;
    m.lemma_tree_walkable(root);
    match size {
        PageSize::Size1G => {
            m.lemma_put3(root, i, e);
        },
        PageSize::Size2M => {
            assert(m.has2(root, i));
            m.lemma_put2(root, i, j, e);
        },
        PageSize::Size4K => {
            assert(m.has1(root, i, j));
            m.lemma_put1(root, i, j, x, e);
        },
    }
    m.lemma_grows_put(root, slot, e);
}

/// A page table whose tables are all kept as they are stays one, with the same tables, and
/// translates every address as before.
pub proof fn law_untouched<PTE: GenericPTE>(m: Memory<PTE>, after: Memory<PTE>, root: int)
    requires
        m.tree(root),
        after.tables.dom() == m.tables.dom(),
        forall|t: int| #[trigger]
            m.owns(root, t) ==> after.tables[t] == m.tables[t] && after.allocated.contains(t),
    ensures
        after.tree(root),
        m.same_shape(after, root),
        forall|t: int| #[trigger] after.owns(root, t) <==> m.owns(root, t),
        forall|vaddr: int| #[trigger] after.leaf(root, vaddr) == m.leaf(root, vaddr),
{
    reveal(Memory::tree);
    reveal(Memory::leaf);
    assert(m.owns(root, root));
    assert forall|i: int| #[trigger] after.has2(root, i) == m.has2(root, i) by {}
    assert forall|i: int| #[trigger] m.has2(root, i) implies m.owns(root, m.t2(root, i)) by {}
    assert forall|i: int, j: int| #[trigger] after.has1(root, i, j) == m.has1(root, i, j) by {
        assert(after.has2(root, i) == m.has2(root, i));
    }
    assert forall|i: int, j: int| #[trigger] m.has1(root, i, j) implies m.owns(
        root,
        m.t1(root, i, j),
    ) by {}
    assert(m.same_shape(after, root));
    m.lemma_same_shape(after, root);
    assert forall|vaddr: int| #[trigger] after.leaf(root, vaddr) == m.leaf(root, vaddr) by {
        assert(m.has2(root, index3(vaddr)) == after.has2(root, index3(vaddr)));
        assert(m.has1(root, index3(vaddr), index2(vaddr)) == after.has1(
            root,
            index3(vaddr),
            index2(vaddr),
        ));
    }
}

/// Whatever a page table does to its own tables, a page table that shares none of them translates
/// every address as before, and goes on sharing none.
pub proof fn law_apart<PTE: GenericPTE>(
    m: Memory<PTE>,
    after: Memory<PTE>,
    root: int,
    taken: Seq<int>,
    other: int,
)
    requires
        m.wf(),
        m.tree(other),
        m.apart(root, other),
        m.grows(after, root, taken),
    ensures
        after.tree(other),
        after.apart(root, other),
        forall|vaddr: int| #[trigger] after.leaf(other, vaddr) == m.leaf(other, vaddr),
{
    m.lemma_owned_live(other);
    assert forall|t: int| #[trigger] m.owns(other, t) implies after.tables[t] == m.tables[t]
        && after.allocated.contains(t) by {
        assert(m.live(t) && !m.owns(root, t));
    }
    law_untouched(m, after, other);
    assert forall|t: int| #[trigger] after.owns(other, t) implies !after.owns(root, t) by {
        assert(m.owns(other, t));
        assert(m.live(t));
        assert(!taken.contains(t));
    }
}

/// Taking a frame into use as it is leaves every page table as it is.
pub proof fn law_reserve<PTE: GenericPTE>(m: Memory<PTE>, root: int, p: int)
    requires
        m.wf(),
        m.tree(root),
        m.tables.contains_key(p),
    ensures
        m.reserve(p).wf(),
        m.reserve(p).tree(root),
        forall|vaddr: int| #[trigger] m.reserve(p).leaf(root, vaddr) == m.leaf(root, vaddr),
{
    m.lemma_owned_live(root);
    law_untouched(m, m.reserve(p), root);
}

} // verus!
