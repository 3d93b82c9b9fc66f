//! How a change of one entry, or of one table, shows in what a page table means.
use vstd::arithmetic::div_mod::lemma_mod_mod;
use vstd::prelude::*;

use crate::entry::GenericPTE;
use crate::memory::Memory;
use crate::model::{is_table, reach, same_page, Slot};
use crate::page::{index1, index2, index3, PageSize};

verus! {

/// Addresses lie in the same page when the indices above it agree.
pub proof fn lemma_same_page(a: int, b: int)
    requires
        0 <= a,
        0 <= b,
    ensures
        same_page(a, b, PageSize::Size1G) <==> index3(a) == index3(b),
        same_page(a, b, PageSize::Size2M) <==> index3(a) == index3(b) && index2(a) == index2(b),
        same_page(a, b, PageSize::Size4K) <==> index3(a) == index3(b) && index2(a) == index2(b)
            && index1(a) == index1(b),
{
    lemma_indices(a);
    lemma_indices(b);
}

/// The indices of an address are the digits of its page number.
pub proof fn lemma_indices(a: int)
    requires
        0 <= a,
    ensures
        (a % reach()) / 0x4000_0000 == index3(a),
        (a % reach()) / 0x20_0000 == index3(a) * 512 + index2(a),
        (a % reach()) / 0x1000 == (index3(a) * 512 + index2(a)) * 512 + index1(a),
        0 <= index3(a) < 512,
        0 <= index2(a) < 512,
        0 <= index1(a) < 512,
{
    lemma_digit(a, 0x1000);
    lemma_digit(a, 0x20_0000);
    lemma_digit(a, 0x4000_0000);
    let r = a % reach();
    let (n3, n2, n1) = (r / 0x4000_0000, r / 0x20_0000, r / 0x1000);
    assert(n2 / 512 == n3);
    assert(n1 / 512 == n2);
    assert(n3 < 512);
}

/// Where an address lies in its page does not depend on what lies above the reach.
pub proof fn lemma_offset_kept(a: int, size: PageSize)
    ensures
        (a % reach()) % size.bytes() as int == a % size.bytes() as int,
{
    match size {
        PageSize::Size4K => lemma_mod_mod(a, 0x1000, 0x800_0000),
        PageSize::Size2M => lemma_mod_mod(a, 0x20_0000, 0x4_0000),
        PageSize::Size1G => lemma_mod_mod(a, 0x4000_0000, 0x200),
    }
}

/// The digits of an address do not depend on what lies above the reach.
proof fn lemma_digit(a: int, unit: int)
    requires
        0 <= a,
        unit == 0x1000 || unit == 0x20_0000 || unit == 0x4000_0000,
    ensures
        (a / unit) % 512 == ((a % reach()) / unit) % 512,
{
    let q = a / reach();
    let r = a % reach();
    assert(a == q * reach() + r);
    if unit == 0x1000 {
        assert(a / 0x1000 == q * 0x800_0000 + r / 0x1000);
    } else if unit == 0x20_0000 {
        assert(a / 0x20_0000 == q * 0x4_0000 + r / 0x20_0000);
    } else {
        assert(a / 0x4000_0000 == q * 512 + r / 0x4000_0000);
    }
}

impl<PTE: GenericPTE> Memory<PTE> {
    /// A root entry that leads to no table is exchanged for another one.
    pub proof fn lemma_put3(self, root: int, i: int, e: PTE)
        requires
            self.wf(),
            self.tree(root),
            0 <= i < 512,
            !self.has2(root, i),
            !is_table(e),
        ensures
            ({
                let after = self.put(Slot { table: root, index: i }, e);
                &&& after.wf()
                &&& after.tree(root)
                &&& after.entry(root, i) == e
                &&& self.same_shape(after, root)
                &&& forall|vaddr: int|
                    index3(vaddr) != i ==> #[trigger] after.leaf(root, vaddr) == self.leaf(
                        root,
                        vaddr,
                    )
            }),
    {
        reveal(Memory::tree);
        reveal(Memory::leaf);
        let after = self.put(Slot { table: root, index: i }, e);
        assert forall|k: int| #[trigger] after.has2(root, k) == self.has2(root, k) by {}
        assert forall|k: int, l: int| #[trigger] after.has1(root, k, l) == self.has1(root, k, l) by {
            assert(after.has2(root, k) == self.has2(root, k));
        }
        assert forall|vaddr: int| index3(vaddr) != i implies #[trigger] after.leaf(root, vaddr)
            == self.leaf(root, vaddr) by {
            assert(self.has2(root, index3(vaddr)) == after.has2(root, index3(vaddr)));
            assert(self.has1(root, index3(vaddr), index2(vaddr)) == after.has1(
                root,
                index3(vaddr),
                index2(vaddr),
            ));
        }
    }

    /// An entry of a middle table that leads to no table is exchanged for another one.
    pub proof fn lemma_put2(self, root: int, i: int, j: int, e: PTE)
        requires
            self.wf(),
            self.tree(root),
            self.has2(root, i),
            0 <= j < 512,
            !self.has1(root, i, j),
            !is_table(e),
        ensures
            ({
                let after = self.put(Slot { table: self.t2(root, i), index: j }, e);
                &&& after.wf()
                &&& after.tree(root)
                &&& after.entry(root, i) == self.entry(root, i)
                &&& after.entry(self.t2(root, i), j) == e
                &&& self.same_shape(after, root)
                &&& forall|vaddr: int|
                    index3(vaddr) != i || index2(vaddr) != j ==> #[trigger] after.leaf(root, vaddr)
                        == self.leaf(root, vaddr)
            }),
    {
        reveal(Memory::tree);
        reveal(Memory::leaf);
        let after = self.put(Slot { table: self.t2(root, i), index: j }, e);
        assert forall|k: int| #[trigger] after.has2(root, k) == self.has2(root, k) by {}
        assert forall|k: int, l: int| #[trigger] after.has1(root, k, l) == self.has1(root, k, l) by {
            assert(after.has2(root, k) == self.has2(root, k));
        }
        assert forall|vaddr: int|
            index3(vaddr) != i || index2(vaddr) != j implies #[trigger] after.leaf(root, vaddr)
            == self.leaf(root, vaddr) by {
            assert(self.has2(root, index3(vaddr)) == after.has2(root, index3(vaddr)));
            assert(self.has1(root, index3(vaddr), index2(vaddr)) == after.has1(
                root,
                index3(vaddr),
                index2(vaddr),
            ));
        }
    }

    /// An entry of a last table is exchanged for another one.
    pub proof fn lemma_put1(self, root: int, i: int, j: int, x: int, e: PTE)
        requires
            self.wf(),
            self.tree(root),
            self.has1(root, i, j),
            0 <= x < 512,
        ensures
            ({
                let after = self.put(Slot { table: self.t1(root, i, j), index: x }, e);
                &&& after.wf()
                &&& after.tree(root)
                &&& after.entry(root, i) == self.entry(root, i)
                &&& after.entry(self.t2(root, i), j) == self.entry(self.t2(root, i), j)
                &&& after.entry(self.t1(root, i, j), x) == e
                &&& self.same_shape(after, root)
                &&& forall|vaddr: int|
                    index3(vaddr) != i || index2(vaddr) != j || index1(vaddr) != x
                        ==> #[trigger] after.leaf(root, vaddr) == self.leaf(root, vaddr)
            }),
    {
        reveal(Memory::tree);
        reveal(Memory::leaf);
        let after = self.put(Slot { table: self.t1(root, i, j), index: x }, e);
        assert(self.has2(root, i));
        assert forall|k: int| #[trigger] after.has2(root, k) == self.has2(root, k) by {}
        assert forall|k: int, l: int| #[trigger] after.has1(root, k, l) == self.has1(root, k, l) by {
            assert(after.has2(root, k) == self.has2(root, k));
        }
        assert forall|vaddr: int|
            index3(vaddr) != i || index2(vaddr) != j || index1(vaddr)
                != x implies #[trigger] after.leaf(root, vaddr) == self.leaf(root, vaddr) by {
            assert(self.has2(root, index3(vaddr)) == after.has2(root, index3(vaddr)));
            assert(self.has1(root, index3(vaddr), index2(vaddr)) == after.has1(
                root,
                index3(vaddr),
                index2(vaddr),
            ));
        }
    }

    /// An unused root entry is given an empty table.
    pub proof fn lemma_link3(self, root: int, i: int, p: int)
        requires
            self.wf(),
            self.tree(root),
            0 <= i < 512,
            self.entry(root, i) == PTE::zero(),
            self.tables.contains_key(p),
            !self.allocated.contains(p),
            self.free_run(p, 1),
        ensures
            ({
                let after = self.allocate(p, 1).put(
                    Slot { table: root, index: i },
                    PTE::zero().with_table(p as usize),
                );
                &&& after.wf()
                &&& after.tree(root)
                &&& after.has2(root, i)
                &&& after.t2(root, i) == p
                &&& forall|k: int| 0 <= k < 512 ==> #[trigger] after.entry(p, k) == PTE::zero()
                &&& forall|t: int| #[trigger]
                    after.owns(root, t) <==> self.owns(root, t) || t == p
                &&& forall|vaddr: int| #[trigger]
                    after.leaf(root, vaddr) == self.leaf(root, vaddr)
            }),
    {
        reveal(Memory::tree);
        reveal(Memory::leaf);
        let e = PTE::zero().with_table(p as usize);
        let after = self.allocate(p, 1).put(Slot { table: root, index: i }, e);
        PTE::law_zero();
        PTE::zero().law_set_table(p as usize);
        assert(!self.has2(root, i));
        assert forall|k: int| k != i implies #[trigger] after.has2(root, k) == self.has2(
            root,
            k,
        ) by {}
        assert forall|k: int, l: int| #[trigger] after.has1(root, k, l) == self.has1(root, k, l) by {
            if k != i {
                assert(after.has2(root, k) == self.has2(root, k));
            }
        }
        assert forall|t: int| #[trigger] after.owns(root, t) <==> self.owns(root, t) || t == p by {
            if t == p {
                assert(after.has2(root, i));
            }
            if exists|k: int| #[trigger] self.has2(root, k) && self.t2(root, k) == t {
                let k = choose|k: int| #[trigger] self.has2(root, k) && self.t2(root, k) == t;
                assert(after.has2(root, k) && after.t2(root, k) == t);
            }
            if exists|k: int, l: int| #[trigger] self.has1(root, k, l) && self.t1(root, k, l) == t {
                let (k, l) = choose|k: int, l: int| #[trigger]
                    self.has1(root, k, l) && self.t1(root, k, l) == t;
                assert(after.has1(root, k, l) && after.t1(root, k, l) == t);
            }
        }
        assert forall|vaddr: int| #[trigger] after.leaf(root, vaddr) == self.leaf(root, vaddr) by {
            let k = index3(vaddr);
            if k != i {
                assert(self.has2(root, k) == after.has2(root, k));
                assert(self.has1(root, k, index2(vaddr)) == after.has1(root, k, index2(vaddr)));
            } else {
                assert(after.entry(p, index2(vaddr)) == PTE::zero());
            }
        }
    }

    /// An unused entry of a middle table is given an empty table.
    pub proof fn lemma_link2(self, root: int, i: int, j: int, p: int)
        requires
            self.wf(),
            self.tree(root),
            self.has2(root, i),
            0 <= j < 512,
            self.entry(self.t2(root, i), j) == PTE::zero(),
            self.tables.contains_key(p),
            !self.allocated.contains(p),
            self.free_run(p, 1),
        ensures
            ({
                let after = self.allocate(p, 1).put(
                    Slot { table: self.t2(root, i), index: j },
                    PTE::zero().with_table(p as usize),
                );
                &&& after.wf()
                &&& after.tree(root)
                &&& after.has2(root, i)
                &&& after.t2(root, i) == self.t2(root, i)
                &&& after.has1(root, i, j)
                &&& after.t1(root, i, j) == p
                &&& forall|k: int| 0 <= k < 512 ==> #[trigger] after.entry(p, k) == PTE::zero()
                &&& forall|t: int| #[trigger]
                    after.owns(root, t) <==> self.owns(root, t) || t == p
                &&& forall|vaddr: int| #[trigger]
                    after.leaf(root, vaddr) == self.leaf(root, vaddr)
            }),
    {
        reveal(Memory::tree);
        reveal(Memory::leaf);
        let e = PTE::zero().with_table(p as usize);
        let after = self.allocate(p, 1).put(Slot { table: self.t2(root, i), index: j }, e);
        PTE::law_zero();
        PTE::zero().law_set_table(p as usize);
        assert forall|k: int| #[trigger] after.has2(root, k) == self.has2(root, k) by {}
        assert(!self.has1(root, i, j));
        assert forall|k: int, l: int| k != i || l != j implies #[trigger] after.has1(root, k, l)
            == self.has1(root, k, l) by {
            assert(after.has2(root, k) == self.has2(root, k));
        }
        assert forall|t: int| #[trigger] after.owns(root, t) <==> self.owns(root, t) || t == p by {
            if t == p {
                assert(after.has1(root, i, j));
            }
            if exists|k: int| #[trigger] self.has2(root, k) && self.t2(root, k) == t {
                let k = choose|k: int| #[trigger] self.has2(root, k) && self.t2(root, k) == t;
                assert(after.has2(root, k) && after.t2(root, k) == t);
            }
            if exists|k: int, l: int| #[trigger] self.has1(root, k, l) && self.t1(root, k, l) == t {
                let (k, l) = choose|k: int, l: int| #[trigger]
                    self.has1(root, k, l) && self.t1(root, k, l) == t;
                assert(after.has1(root, k, l) && after.t1(root, k, l) == t);
            }
        }
        assert forall|vaddr: int| #[trigger] after.leaf(root, vaddr) == self.leaf(root, vaddr) by {
            let k = index3(vaddr);
            let l = index2(vaddr);
            assert(self.has2(root, k) == after.has2(root, k));
            if k != i || l != j {
                assert(self.has1(root, k, l) == after.has1(root, k, l));
            } else {
                assert(after.entry(p, index1(vaddr)) == PTE::zero());
            }
        }
    }

    /// Memories of the same shape have the same tables.
    pub proof fn lemma_same_shape(self, other: Self, root: int)
        requires
            self.same_shape(other, root),
        ensures
            forall|t: int| #[trigger] other.owns(root, t) <==> self.owns(root, t),
    {
        assert forall|t: int| #[trigger] other.owns(root, t) <==> self.owns(root, t) by {
            if exists|k: int| #[trigger] self.has2(root, k) && self.t2(root, k) == t {
                let k = choose|k: int| #[trigger] self.has2(root, k) && self.t2(root, k) == t;
                assert(other.has2(root, k) && other.t2(root, k) == t);
            }
            if exists|k: int, l: int| #[trigger] self.has1(root, k, l) && self.t1(root, k, l) == t {
                let (k, l) = choose|k: int, l: int| #[trigger]
                    self.has1(root, k, l) && self.t1(root, k, l) == t;
                assert(other.has1(root, k, l) && other.t1(root, k, l) == t);
            }
        }
    }
}

} // verus!
