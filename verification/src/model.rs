//! What a page table of three levels means.
//!
//! A page table is a root table in memory. What it translates follows from the entries that are
//! met on the way from the root; everything here is a function of the memory and of the address
//! of the root.
use vstd::prelude::*;

use crate::entry::GenericPTE;
use crate::error::{PagingError, PagingResult};
use crate::flags::MemFlags;
use crate::memory::Memory;
use crate::page::{index1, index2, index3, PageSize};

verus! {

/// The place of an entry: a table and an index into it.
pub ghost struct Slot {
    pub table: int,
    pub index: int,
}

/// The virtual addresses that tables of three levels tell apart.
pub open spec fn reach() -> int {
    0x80_0000_0000
}

/// Two addresses lie in the same page of this size.
pub open spec fn same_page(a: int, b: int, size: PageSize) -> bool {
    (a % reach()) / size.bytes() as int == (b % reach()) / size.bytes() as int
}

/// The entry points to a table of the next level.
pub open spec fn is_table<PTE: GenericPTE>(e: PTE) -> bool {
    e.present() && !e.huge()
}

/// The table that an entry points to.
pub open spec fn next_table<PTE: GenericPTE>(e: PTE) -> PagingResult<int> {
    if !e.present() {
        Err(PagingError::NotMapped)
    } else if e.huge() {
        Err(PagingError::MappedToHugePage)
    } else {
        Ok(e.target() as int)
    }
}

impl<PTE: GenericPTE> Memory<PTE> {
    pub open spec fn at(self, slot: Slot) -> PTE {
        self.entry(slot.table, slot.index)
    }

    pub open spec fn put(self, slot: Slot, e: PTE) -> Self {
        self.set_entry(slot.table, slot.index, e)
    }

    /// The table is there and in use.
    pub open spec fn live(self, table: int) -> bool {
        self.tables.contains_key(table) && self.allocated.contains(table)
    }

    /// Entry `i` of the root leads to a middle table.
    pub open spec fn has2(self, root: int, i: int) -> bool {
        0 <= i < 512 && is_table(self.entry(root, i))
    }

    /// The middle table behind entry `i` of the root.
    pub open spec fn t2(self, root: int, i: int) -> int {
        self.entry(root, i).target() as int
    }

    /// Entry `i` of the root, and entry `j` behind it, lead to a last table.
    pub open spec fn has1(self, root: int, i: int, j: int) -> bool {
        self.has2(root, i) && 0 <= j < 512 && is_table(self.entry(self.t2(root, i), j))
    }

    /// The last table behind entry `i` of the root and entry `j` behind it.
    pub open spec fn t1(self, root: int, i: int, j: int) -> int {
        self.entry(self.t2(root, i), j).target() as int
    }

    /// Every table that is met from the root on is in memory.
    pub open spec fn walkable(self, root: int) -> bool {
        &&& self.tables.contains_key(root)
        &&& forall|i: int| #[trigger]
            self.has2(root, i) ==> self.tables.contains_key(self.t2(root, i))
        &&& forall|i: int, j: int| #[trigger]
            self.has1(root, i, j) ==> self.tables.contains_key(self.t1(root, i, j))
    }

    /// Every table on the way from the root to the entry that decides on `vaddr` is in memory.
    pub open spec fn way(self, root: int, vaddr: int) -> bool {
        let i = index3(vaddr);
        let j = index2(vaddr);
        &&& self.tables.contains_key(root)
        &&& self.has2(root, i) ==> self.tables.contains_key(self.t2(root, i))
        &&& self.has1(root, i, j) ==> self.tables.contains_key(self.t1(root, i, j))
    }

    /// The tables from the root on are in use, and each of them is met on one way only.
    #[verifier::opaque]
    pub open spec fn tree(self, root: int) -> bool {
        &&& self.walkable(root)
        &&& self.allocated.contains(root)
        &&& forall|i: int| #[trigger]
            self.has2(root, i) ==> self.allocated.contains(self.t2(root, i)) && self.t2(root, i)
                != root
        &&& forall|i: int, j: int| #[trigger]
            self.has1(root, i, j) ==> self.allocated.contains(self.t1(root, i, j)) && self.t1(
                root,
                i,
                j,
            ) != root
        &&& forall|i: int, k: int| #[trigger]
            self.has2(root, i) && #[trigger] self.has2(root, k) && i != k ==> self.t2(root, i)
                != self.t2(root, k)
        &&& forall|i: int, j: int, k: int| #[trigger]
            self.has1(root, i, j) && #[trigger] self.has2(root, k) ==> self.t1(root, i, j)
                != self.t2(root, k)
        &&& forall|i: int, j: int, k: int, l: int| #[trigger]
            self.has1(root, i, j) && #[trigger] self.has1(root, k, l) && (i != k || j != l)
                ==> self.t1(root, i, j) != self.t1(root, k, l)
    }

    /// The table is the root or is met from it on.
    pub open spec fn owns(self, root: int, table: int) -> bool {
        ||| table == root
        ||| exists|i: int| #[trigger] self.has2(root, i) && self.t2(root, i) == table
        ||| exists|i: int, j: int| #[trigger] self.has1(root, i, j) && self.t1(root, i, j) == table
    }

    /// The same entries of both memories lead to tables, and to the same ones.
    pub open spec fn same_shape(self, other: Self, root: int) -> bool {
        &&& forall|i: int| #[trigger] other.has2(root, i) == self.has2(root, i)
        &&& forall|i: int| #[trigger]
            self.has2(root, i) ==> other.t2(root, i) == self.t2(root, i)
        &&& forall|i: int, j: int| #[trigger] other.has1(root, i, j) == self.has1(root, i, j)
        &&& forall|i: int, j: int| #[trigger]
            self.has1(root, i, j) ==> other.t1(root, i, j) == self.t1(root, i, j)
    }

    /// The entry that decides on `vaddr`, and the size of the page that it stands for.
    pub open spec fn locate(self, root: int, vaddr: int) -> PagingResult<(Slot, PageSize)> {
        let s3 = Slot { table: root, index: index3(vaddr) };
        if self.at(s3).huge() {
            Ok((s3, PageSize::Size1G))
        } else {
            match next_table(self.at(s3)) {
                Err(e) => Err(e),
                Ok(p2) => {
                    let s2 = Slot { table: p2, index: index2(vaddr) };
                    if self.at(s2).huge() {
                        Ok((s2, PageSize::Size2M))
                    } else {
                        match next_table(self.at(s2)) {
                            Err(e) => Err(e),
                            Ok(p1) => Ok(
                                (Slot { table: p1, index: index1(vaddr) }, PageSize::Size4K),
                            ),
                        }
                    }
                },
            }
        }
    }

    /// What the page table maps `vaddr` to: the entry, and the size of its page.
    #[verifier::opaque]
    pub open spec fn leaf(self, root: int, vaddr: int) -> PagingResult<(PTE, PageSize)> {
        match self.locate(root, vaddr) {
            Err(e) => Err(e),
            Ok((slot, size)) => if self.at(slot) == PTE::zero() {
                Err(PagingError::NotMapped)
            } else {
                Ok((self.at(slot), size))
            },
        }
    }

    /// The physical address, the flags and the page size that `vaddr` is translated to.
    pub open spec fn translate(self, root: int, vaddr: int) -> PagingResult<
        (int, MemFlags, PageSize),
    > {
        match self.leaf(root, vaddr) {
            Err(e) => Err(e),
            Ok((e, size)) => Ok((e.target() + vaddr % size.bytes() as int, e.rights(), size)),
        }
    }

    /// The tables of a tree are in memory.
    pub proof fn lemma_tree_walkable(self, root: int)
        requires
            self.tree(root),
        ensures
            self.walkable(root),
            self.live(root),
    {
        reveal(Memory::tree);
    }

    /// An entry that is located is in memory.
    pub proof fn lemma_located(self, root: int, vaddr: int)
        requires
            self.way(root, vaddr),
        ensures
            self.locate(root, vaddr) matches Ok((slot, _)) ==> self.tables.contains_key(slot.table)
                && 0 <= slot.index < 512,
    {
    }

    /// Writing back what an entry holds changes nothing.
    pub proof fn lemma_put_same(self, slot: Slot)
        requires
            self.wf(),
            self.tables.contains_key(slot.table),
            0 <= slot.index < 512,
        ensures
            self.put(slot, self.at(slot)) == self,
    {
        let table = self.tables[slot.table];
        assert(table.update(slot.index, table[slot.index]) =~= table);
        assert(self.put(slot, self.at(slot)).tables =~= self.tables);
    }
}

} // verus!
