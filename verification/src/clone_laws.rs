//! What holds between a page table and its clones.
use vstd::prelude::*;

use crate::addr::{PhysAddr, PAGE_SIZE};
use crate::change::{maps_no_table, page_entry, page_size_for};
use crate::entry::GenericPTE;
use crate::flags::MemFlags;
use crate::laws::{
    law_clone_root, law_entry_or_create, law_map_page, lemma_map_step, lemma_unmap_step,
};
use crate::memory::{Memory, ROOT_FRAMES};
use crate::model::{is_table, Slot};
use crate::page::{index1, index2, index3, PageSize};
use crate::region::Mapper;
use crate::table_laws::law_untouched;

verus! {

impl<PTE: GenericPTE> Memory<PTE> {
    /// The table `t` is met behind entry `i` of the root.
    pub open spec fn behind(self, root: int, i: int, t: int) -> bool {
        self.has2(root, i) && {
            ||| self.t2(root, i) == t
            ||| exists|j: int| #[trigger] self.has1(root, i, j) && self.t1(root, i, j) == t
        }
    }

    /// The page tables at `a` and `b` may share tables, but only as a page table and its clones do:
    /// neither root is a table of the other one, and a table that is met from both is met behind
    /// the same entry of both roots.
    pub open spec fn clones(self, a: int, b: int) -> bool {
        &&& self.tree(a)
        &&& self.tree(b)
        &&& !self.owns(a, b)
        &&& !self.owns(b, a)
        &&& forall|i: int, k: int, t: int| #[trigger]
            self.behind(a, i, t) && #[trigger] self.behind(b, k, t) ==> i == k && self.entry(a, i)
                == self.entry(b, k)
    }

    /// The page tables at `a` and `b` share the tables behind entry `i` of their roots.
    pub open spec fn shared(self, a: int, b: int, i: int) -> bool {
        self.has2(a, i) && self.entry(a, i) == self.entry(b, i)
    }

    /// From `self` to `after`, the page table at `a` was changed. What `b` shares with it is
    /// translated as by `a`; all else is translated as before. The two stay clones, they share
    /// what they did, and the root of `b` was left alone.
    pub open spec fn clone_follows(self, after: Self, a: int, b: int) -> bool {
        &&& after.clones(a, b)
        &&& after.tables[b] == self.tables[b]
        &&& forall|i: int| #[trigger] after.shared(a, b, i) == self.shared(a, b, i)
        &&& forall|i: int, t: int|
            !self.shared(a, b, i) ==> #[trigger] after.behind(b, i, t) == self.behind(b, i, t)
        &&& forall|vaddr: int| #[trigger]
            after.leaf(b, vaddr) == if self.shared(a, b, index3(vaddr)) {
                after.leaf(a, vaddr)
            } else {
                self.leaf(b, vaddr)
            }
    }

    /// From `self` to `after`, only the root at `a` and tables behind its entry `i` were changed; an
    /// entry that leads to a table was kept, and frames that were free may have become tables there.
    spec fn changed_behind(self, after: Self, a: int, i: int) -> bool {
        &&& after.tables.dom() == self.tables.dom()
        &&& forall|t: int| #[trigger]
            self.allocated.contains(t) ==> after.allocated.contains(t)
        &&& forall|t: int|
            self.live(t) && t != a && !self.behind(a, i, t) ==> #[trigger] after.tables[t]
                == self.tables[t]
        &&& forall|k: int|
            0 <= k < 512 && k != i ==> #[trigger] after.entry(a, k) == self.entry(a, k)
        &&& self.has2(a, i) ==> after.entry(a, i) == self.entry(a, i)
        &&& forall|t: int| #[trigger]
            after.behind(a, i, t) ==> self.behind(a, i, t) || !self.allocated.contains(t)
    }

    /// The tables of a page table are its root and those behind the entries of the root.
    proof fn lemma_owns_behind(self, root: int, t: int)
        ensures
            self.owns(root, t) <==> t == root || exists|i: int| #[trigger] self.behind(root, i, t),
    {
        if exists|i: int| #[trigger] self.has2(root, i) && self.t2(root, i) == t {
            let i = choose|i: int| #[trigger] self.has2(root, i) && self.t2(root, i) == t;
            assert(self.behind(root, i, t));
        }
        if exists|i: int, j: int| #[trigger] self.has1(root, i, j) && self.t1(root, i, j) == t {
            let (i, j) = choose|i: int, j: int| #[trigger]
                self.has1(root, i, j) && self.t1(root, i, j) == t;
            assert(self.behind(root, i, t));
        }
    }

    /// Tables behind the root are in use, are not the root, and are met behind one entry only.
    proof fn lemma_behind(self, root: int)
        requires
            self.tree(root),
        ensures
            forall|i: int, t: int| #[trigger]
                self.behind(root, i, t) ==> self.live(t) && t != root && 0 <= i < 512,
            forall|i: int, k: int, t: int| #[trigger]
                self.behind(root, i, t) && #[trigger] self.behind(root, k, t) ==> i == k,
    {
        reveal(Memory::tree);
    }
}

/// Two page tables translate an address alike wherever their roots hold the same entry for it.
pub proof fn law_follows<PTE: GenericPTE>(m: Memory<PTE>, a: int, b: int, vaddr: int)
    requires
        m.entry(a, index3(vaddr)) == m.entry(b, index3(vaddr)),
    ensures
        m.leaf(b, vaddr) == m.leaf(a, vaddr),
{
    reveal(Memory::leaf);
}

/// Clones are so of each other.
pub proof fn law_clones_symmetric<PTE: GenericPTE>(m: Memory<PTE>, a: int, b: int)
    requires
        m.clones(a, b),
    ensures
        m.clones(b, a),
        forall|i: int| #[trigger] m.shared(b, a, i) == m.shared(a, b, i),
{
    assert forall|i: int| #[trigger] m.shared(b, a, i) == m.shared(a, b, i) by {}
}

/// The page table at `a` was changed behind one entry of its root.
proof fn lemma_clone_change<PTE: GenericPTE>(
    m: Memory<PTE>,
    after: Memory<PTE>,
    a: int,
    b: int,
    i: int,
)
    requires
        m.wf(),
        m.clones(a, b),
        0 <= i < 512,
        after.tree(a),
        m.changed_behind(after, a, i),
    ensures
        m.clone_follows(after, a, b),
{
    m.lemma_behind(a);
    m.lemma_behind(b);
    after.lemma_behind(a);
    m.lemma_tree_walkable(a);
    m.lemma_tree_walkable(b);
    m.lemma_owns_behind(a, b);
    m.lemma_owns_behind(b, a);
    assert(after.tables[b] == m.tables[b]);
    lemma_changed_elsewhere(m, after, a, i);
    if m.shared(a, b, i) {
        lemma_shared_change(m, after, a, b, i);
    } else {
        lemma_unshared_change(m, after, a, b, i);
    }
    assert forall|k: int| #[trigger] after.shared(a, b, k) == m.shared(a, b, k) by {
        if k == i && !m.has2(a, i) && after.has2(a, i) && after.entry(a, i) == after.entry(b, i) {
            let t = after.t2(a, i);
            assert(after.behind(a, i, t));
            assert(m.behind(b, i, t));
        }
        if k != i && 0 <= k < 512 {
            assert(after.entry(a, k) == m.entry(a, k));
        }
    }
    assert(!after.owns(a, b)) by {
        after.lemma_owns_behind(a, b);
        if after.owns(a, b) {
            let k = choose|k: int| #[trigger] after.behind(a, k, b);
            assert(k != i ==> m.behind(a, k, b));
        }
    }
    assert(!after.owns(b, a)) by {
        after.lemma_owns_behind(b, a);
        if after.owns(b, a) {
            let k = choose|k: int| #[trigger] after.behind(b, k, a);
            if k == i && m.shared(a, b, i) {
                assert(after.behind(a, i, a));
            } else {
                assert(m.behind(b, k, a));
            }
        }
    }
    assert forall|x: int, y: int, t: int| #[trigger]
        after.behind(a, x, t) && #[trigger] after.behind(b, y, t) implies x == y && after.entry(
        a,
        x,
    ) == after.entry(b, y) by {
        if y == i && m.shared(a, b, i) {
            assert(after.behind(a, i, t));
        } else {
            assert(m.behind(b, y, t));
            if x != i {
                assert(m.behind(a, x, t));
                assert(after.entry(a, x) == m.entry(a, x));
            } else {
                assert(m.behind(a, i, t));
            }
        }
    }
    assert forall|vaddr: int| #[trigger]
        after.leaf(b, vaddr) == if m.shared(a, b, index3(vaddr)) {
            after.leaf(a, vaddr)
        } else {
            m.leaf(b, vaddr)
        } by {
        if m.shared(a, b, index3(vaddr)) {
            assert(after.shared(a, b, index3(vaddr)));
            law_follows(after, a, b, vaddr);
        }
    }
}

/// Behind the other entries of the root nothing was changed.
proof fn lemma_changed_elsewhere<PTE: GenericPTE>(
    m: Memory<PTE>,
    after: Memory<PTE>,
    a: int,
    i: int,
)
    requires
        m.tree(a),
        m.changed_behind(after, a, i),
    ensures
        forall|k: int, t: int|
            k != i ==> #[trigger] after.behind(a, k, t) == m.behind(a, k, t),
{
    m.lemma_behind(a);
    assert forall|k: int, t: int| k != i implies #[trigger] after.behind(a, k, t) == m.behind(
        a,
        k,
        t,
    ) by {
        if 0 <= k < 512 {
            assert(after.entry(a, k) == m.entry(a, k));
            if m.has2(a, k) {
                assert(m.behind(a, k, m.t2(a, k)));
                assert(after.tables[m.t2(a, k)] == m.tables[m.t2(a, k)]);
                assert forall|j: int| #[trigger] after.has1(a, k, j) == m.has1(a, k, j) by {}
                assert forall|j: int| #[trigger] m.has1(a, k, j) implies after.t1(a, k, j) == m.t1(
                    a,
                    k,
                    j,
                ) by {}
                if m.behind(a, k, t) && m.t2(a, k) != t {
                    let j = choose|j: int| #[trigger] m.has1(a, k, j) && m.t1(a, k, j) == t;
                    assert(after.has1(a, k, j) && after.t1(a, k, j) == t);
                }
            }
        }
    }
}

/// What was changed is not shared with `b`: the tables of `b` are as they were.
proof fn lemma_unshared_change<PTE: GenericPTE>(
    m: Memory<PTE>,
    after: Memory<PTE>,
    a: int,
    b: int,
    i: int,
)
    requires
        m.clones(a, b),
        m.changed_behind(after, a, i),
        !m.shared(a, b, i),
    ensures
        after.tree(b),
        forall|k: int, t: int| #[trigger] after.behind(b, k, t) == m.behind(b, k, t),
        forall|vaddr: int| #[trigger] after.leaf(b, vaddr) == m.leaf(b, vaddr),
{
    m.lemma_behind(b);
    m.lemma_tree_walkable(b);
    assert forall|t: int| #[trigger] m.owns(b, t) implies after.tables[t] == m.tables[t]
        && after.allocated.contains(t) by {
        m.lemma_owns_behind(b, t);
        m.lemma_owns_behind(a, b);
        if t != b {
            let k = choose|k: int| #[trigger] m.behind(b, k, t);
            assert(!m.behind(a, i, t));
        } else {
            assert(!m.behind(a, i, b));
        }
        assert(m.live(t));
    }
    law_untouched(m, after, b);
    assert forall|k: int, t: int| #[trigger] after.behind(b, k, t) == m.behind(b, k, t) by {
        assert(after.has2(b, k) == m.has2(b, k));
        if m.behind(b, k, t) && m.t2(b, k) != t {
            let j = choose|j: int| #[trigger] m.has1(b, k, j) && m.t1(b, k, j) == t;
            assert(after.has1(b, k, j) && after.t1(b, k, j) == t);
        }
        if after.behind(b, k, t) && after.t2(b, k) != t {
            let j = choose|j: int| #[trigger] after.has1(b, k, j) && after.t1(b, k, j) == t;
            assert(m.has1(b, k, j) && m.t1(b, k, j) == t);
        }
    }
}

/// What was changed is shared with `b`: behind that entry both have the same tables, and behind the
/// others `b` has what it had.
proof fn lemma_shared_change<PTE: GenericPTE>(
    m: Memory<PTE>,
    after: Memory<PTE>,
    a: int,
    b: int,
    i: int,
)
    requires
        m.clones(a, b),
        0 <= i < 512,
        after.tree(a),
        m.changed_behind(after, a, i),
        m.shared(a, b, i),
    ensures
        after.tree(b),
        forall|t: int| #[trigger] after.behind(b, i, t) == after.behind(a, i, t),
        forall|k: int, t: int|
            k != i ==> #[trigger] after.behind(b, k, t) == m.behind(b, k, t),
        forall|vaddr: int|
            index3(vaddr) != i ==> #[trigger] after.leaf(b, vaddr) == m.leaf(b, vaddr),
{
    m.lemma_behind(a);
    m.lemma_behind(b);
    after.lemma_behind(a);
    m.lemma_tree_walkable(b);
    m.lemma_owns_behind(a, b);
    m.lemma_owns_behind(b, a);
    assert(!m.behind(a, i, b));
    assert(after.tables[b] == m.tables[b]);
    assert(after.entry(b, i) == after.entry(a, i));
    assert forall|t: int| #[trigger] after.behind(b, i, t) == after.behind(a, i, t) by {
        assert forall|j: int| #[trigger] after.has1(b, i, j) == after.has1(a, i, j) by {}
        if after.behind(a, i, t) && after.t2(a, i) != t {
            let j = choose|j: int| #[trigger] after.has1(a, i, j) && after.t1(a, i, j) == t;
            assert(after.has1(b, i, j) && after.t1(b, i, j) == t);
        }
        if after.behind(b, i, t) && after.t2(b, i) != t {
            let j = choose|j: int| #[trigger] after.has1(b, i, j) && after.t1(b, i, j) == t;
            assert(after.has1(a, i, j) && after.t1(a, i, j) == t);
        }
    }
    assert forall|k: int, t: int| k != i && #[trigger] m.behind(b, k, t) implies after.tables[t]
        == m.tables[t] && m.live(t) by {
        assert(!m.behind(a, i, t));
        assert(!m.behind(b, k, a));
    }
    assert forall|k: int| k != i && #[trigger] m.has2(b, k) implies m.behind(b, k, m.t2(b, k)) by {}
    assert forall|k: int, j: int| k != i && #[trigger] m.has1(b, k, j) implies m.behind(
        b,
        k,
        m.t1(b, k, j),
    ) by {}
    assert forall|k: int| k != i implies #[trigger] after.has2(b, k) == m.has2(b, k) by {}
    assert forall|k: int, j: int| k != i implies #[trigger] after.has1(b, k, j) == m.has1(
        b,
        k,
        j,
    ) by {
        assert(after.has2(b, k) == m.has2(b, k));
        if m.has2(b, k) {
            assert(m.behind(b, k, m.t2(b, k)));
        }
    }
    assert forall|k: int, t: int| k != i implies #[trigger] after.behind(b, k, t) == m.behind(
        b,
        k,
        t,
    ) by {
        assert(after.has2(b, k) == m.has2(b, k));
        if m.has2(b, k) {
            assert(m.behind(b, k, m.t2(b, k)));
        }
        if m.behind(b, k, t) && m.t2(b, k) != t {
            let j = choose|j: int| #[trigger] m.has1(b, k, j) && m.t1(b, k, j) == t;
            assert(after.has1(b, k, j) && after.t1(b, k, j) == t);
        }
        if after.behind(b, k, t) && after.t2(b, k) != t {
            let j = choose|j: int| #[trigger] after.has1(b, k, j) && after.t1(b, k, j) == t;
            assert(m.has1(b, k, j) && m.t1(b, k, j) == t);
        }
    }
    lemma_tree_from_parts(m, after, a, b, i);
    assert forall|vaddr: int| index3(vaddr) != i implies #[trigger] after.leaf(b, vaddr) == m.leaf(
        b,
        vaddr,
    ) by {
        reveal(Memory::leaf);
        let k = index3(vaddr);
        assert(after.has2(b, k) == m.has2(b, k));
        assert(after.has1(b, k, index2(vaddr)) == m.has1(b, k, index2(vaddr)));
        if m.has2(b, k) {
            assert(m.behind(b, k, m.t2(b, k)));
        }
        if m.has1(b, k, index2(vaddr)) {
            assert(m.behind(b, k, m.t1(b, k, index2(vaddr))));
        }
    }
}

/// A page table is made of what it had and of what it shares with another one.
proof fn lemma_tree_from_parts<PTE: GenericPTE>(
    m: Memory<PTE>,
    after: Memory<PTE>,
    a: int,
    b: int,
    i: int,
)
    requires
        m.clones(a, b),
        0 <= i < 512,
        after.tree(a),
        m.changed_behind(after, a, i),
        m.shared(a, b, i),
        after.tables[b] == m.tables[b],
        after.entry(b, i) == after.entry(a, i),
        forall|k: int, t: int|
            k != i && #[trigger] m.behind(b, k, t) ==> after.tables[t] == m.tables[t] && m.live(t),
    ensures
        after.tree(b),
{
    m.lemma_behind(a);
    m.lemma_behind(b);
    after.lemma_behind(a);
    m.lemma_owns_behind(a, b);
    m.lemma_tree_walkable(b);
    reveal(Memory::tree);
    assert forall|k: int| k != i implies #[trigger] after.has2(b, k) == m.has2(b, k) && (m.has2(b, k)
        ==> m.behind(b, k, m.t2(b, k)) && after.t2(b, k) == m.t2(b, k)) by {}
    assert forall|k: int, j: int| k != i implies #[trigger] after.has1(b, k, j) == m.has1(b, k, j)
        && (m.has1(b, k, j) ==> m.behind(b, k, m.t1(b, k, j)) && after.t1(b, k, j) == m.t1(
        b,
        k,
        j,
    )) by {
        assert(after.has2(b, k) == m.has2(b, k));
        if m.has2(b, k) {
            assert(m.behind(b, k, m.t2(b, k)));
        }
    }
    assert(after.has2(b, i) && after.has2(a, i) && after.t2(b, i) == after.t2(a, i));
    assert(after.behind(a, i, after.t2(a, i)));
    assert forall|j: int| #[trigger] after.has1(b, i, j) == after.has1(a, i, j) && after.t1(b, i, j)
        == after.t1(a, i, j) && (after.has1(a, i, j) ==> after.behind(a, i, after.t1(a, i, j))) by {}
    // A table behind the shared entry is no other table of `b`.
    assert forall|k: int, t: int| k != i && #[trigger] m.behind(b, k, t) implies !after.behind(
        a,
        i,
        t,
    ) by {
        assert(!m.behind(a, i, t));
    }
    assert(!after.behind(a, i, b));
}

impl<PTE: GenericPTE> Memory<PTE> {
    proof fn lemma_changed_same(self, a: int, i: int)
        ensures
            self.changed_behind(self, a, i),
    {
    }

    proof fn lemma_changed_twice(self, middle: Self, after: Self, a: int, i: int)
        requires
            self.wf(),
            self.changed_behind(middle, a, i),
            middle.changed_behind(after, a, i),
        ensures
            self.changed_behind(after, a, i),
    {
        assert forall|t: int|
            self.live(t) && t != a && !self.behind(a, i, t) implies #[trigger] after.tables[t]
            == self.tables[t] by {
            assert(middle.tables[t] == self.tables[t]);
            assert(!middle.behind(a, i, t));
            assert(middle.live(t));
        }
        assert forall|k: int| 0 <= k < 512 && k != i implies #[trigger] after.entry(a, k)
            == self.entry(a, k) by {
            assert(middle.entry(a, k) == self.entry(a, k));
        }
    }

    /// An unused root entry is given a table.
    proof fn lemma_changed_link3(self, a: int, i: int, p: int)
        requires
            self.wf(),
            self.tree(a),
            0 <= i < 512,
            self.entry(a, i) == PTE::zero(),
            self.free_run(p, 1),
        ensures
            self.changed_behind(
                self.allocate(p, 1).put(
                    Slot { table: a, index: i },
                    PTE::zero().with_table(p as usize),
                ),
                a,
                i,
            ),
    {
        self.lemma_free_run(p, 1, 0);
        self.lemma_tree_walkable(a);
        self.lemma_link3(a, i, p);
        PTE::law_zero();
        let after = self.allocate(p, 1).put(
            Slot { table: a, index: i },
            PTE::zero().with_table(p as usize),
        );
        assert(after.tables.dom() =~= self.tables.dom());
        assert forall|t: int| #[trigger] after.behind(a, i, t) implies t == p by {
            assert forall|j: int| !#[trigger] after.has1(a, i, j) by {
                if 0 <= j < 512 {
                    assert(after.entry(p, j) == PTE::zero());
                }
            }
        }
    }

    /// An unused entry of a middle table is given a table.
    proof fn lemma_changed_link2(self, a: int, i: int, j: int, p: int)
        requires
            self.wf(),
            self.tree(a),
            self.has2(a, i),
            0 <= j < 512,
            self.entry(self.t2(a, i), j) == PTE::zero(),
            self.free_run(p, 1),
        ensures
            self.changed_behind(
                self.allocate(p, 1).put(
                    Slot { table: self.t2(a, i), index: j },
                    PTE::zero().with_table(p as usize),
                ),
                a,
                i,
            ),
    {
        self.lemma_free_run(p, 1, 0);
        self.lemma_tree_walkable(a);
        self.lemma_behind(a);
        self.lemma_link2(a, i, j, p);
        let t2 = self.t2(a, i);
        let after = self.allocate(p, 1).put(
            Slot { table: t2, index: j },
            PTE::zero().with_table(p as usize),
        );
        assert(self.behind(a, i, t2));
        assert(after.tables.dom() =~= self.tables.dom());
        assert(after.tables[a] == self.tables[a]);
        assert forall|t: int| #[trigger] after.behind(a, i, t) implies self.behind(a, i, t) || t
            == p by {
            if after.t2(a, i) != t {
                let l = choose|l: int| #[trigger] after.has1(a, i, l) && after.t1(a, i, l) == t;
                if l != j {
                    assert(after.entry(t2, l) == self.entry(t2, l));
                    assert(self.has1(a, i, l));
                }
            }
        }
    }

    /// An entry of the root or behind it is exchanged, and the shape stays.
    proof fn lemma_changed_put(self, a: int, i: int, slot: Slot, e: PTE)
        requires
            self.wf(),
            self.tree(a),
            0 <= i < 512,
            self.tables.contains_key(slot.table),
            0 <= slot.index < 512,
            slot == (Slot { table: a, index: i }) && !self.has2(a, i) || self.behind(
                a,
                i,
                slot.table,
            ),
            self.same_shape(self.put(slot, e), a),
        ensures
            self.changed_behind(self.put(slot, e), a, i),
    {
        let after = self.put(slot, e);
        self.lemma_behind(a);
        assert(after.tables.dom() =~= self.tables.dom());
        assert forall|t: int| #[trigger] after.behind(a, i, t) implies self.behind(a, i, t) by {
            assert(self.has2(a, i) == after.has2(a, i));
            if after.t2(a, i) != t {
                let j = choose|j: int| #[trigger] after.has1(a, i, j) && after.t1(a, i, j) == t;
                assert(self.has1(a, i, j));
            }
        }
    }
}

proof fn lemma_changed_path<PTE: GenericPTE>(m: Memory<PTE>, a: int, vaddr: int, size: PageSize)
    requires
        m.wf(),
        m.tree(a),
    ensures
        m.changed_behind(m.entry_or_create(a, vaddr, size).mem, a, index3(vaddr)),
{
    reveal(Memory::entry_or_create);
    let i = index3(vaddr);
    let j = index2(vaddr);
    let s3 = Slot { table: a, index: i };
    m.lemma_changed_same(a, i);
    if size != PageSize::Size1G {
        let second = m.next_or_create(s3);
        if m.at(s3) == PTE::zero() {
            m.lemma_fit(1);
            if let Some(p) = m.first_fit(1) {
                m.lemma_link3(a, i, p);
                m.lemma_changed_link3(a, i, p);
            }
        }
        if let Ok(p2) = second.result {
            assert(second.mem.has2(a, i) && second.mem.t2(a, i) == p2);
            if size != PageSize::Size2M {
                let s2 = Slot { table: p2, index: j };
                let first = second.mem.next_or_create(s2);
                if second.mem.at(s2) == PTE::zero() {
                    second.mem.lemma_fit(1);
                    if let Some(p) = second.mem.first_fit(1) {
                        second.mem.lemma_changed_link2(a, i, j, p);
                        m.lemma_changed_twice(second.mem, first.mem, a, i);
                    }
                }
            }
        }
    }
}

/// Mapping a page keeps a page table and its clone together.
pub proof fn law_clone_map_page<PTE: GenericPTE>(
    m: Memory<PTE>,
    a: int,
    b: int,
    vaddr: int,
    size: PageSize,
    paddr: PhysAddr,
    flags: MemFlags,
)
    requires
        m.wf(),
        m.clones(a, b),
        0 <= vaddr,
        size == PageSize::Size4K || !is_table(page_entry::<PTE>(size, paddr, flags)),
    ensures
        m.clone_follows(m.map_page(a, vaddr, size, paddr, flags).mem, a, b),
{
    let i = index3(vaddr);
    let j = index2(vaddr);
    let x = index1(vaddr);
    let path = m.entry_or_create(a, vaddr, size);
    let done = m.map_page(a, vaddr, size, paddr, flags);
    let e = page_entry::<PTE>(size, paddr, flags);
    law_entry_or_create(m, a, vaddr, size);
    lemma_changed_path(m, a, vaddr, size);
    law_map_page(m, a, vaddr, size, paddr, flags);
    PTE::law_zero();
    assert(m.changed_behind(done.mem, a, i)) by {
        reveal(Memory::map_page);
        if let Ok(slot) = done.result {
            path.mem.lemma_tree_walkable(a);
            match size {
                PageSize::Size1G => path.mem.lemma_put3(a, i, e),
                PageSize::Size2M => {
                    assert(path.mem.behind(a, i, slot.table));
                    path.mem.lemma_put2(a, i, j, e)
                },
                PageSize::Size4K => {
                    assert(path.mem.behind(a, i, slot.table));
                    path.mem.lemma_put1(a, i, j, x, e)
                },
            }
            path.mem.lemma_changed_put(a, i, slot, e);
            m.lemma_changed_twice(path.mem, done.mem, a, i);
        }
    }
    lemma_clone_change(m, done.mem, a, b, i);
}

proof fn lemma_clone_located<PTE: GenericPTE>(
    m: Memory<PTE>,
    a: int,
    b: int,
    vaddr: int,
    e: PTE,
)
    requires
        m.wf(),
        m.clones(a, b),
        0 <= vaddr,
        m.locate(a, vaddr) is Ok,
        m.locate(a, vaddr)->Ok_0.1 == PageSize::Size4K || !is_table(e),
    ensures
        m.clone_follows(m.put(m.locate(a, vaddr)->Ok_0.0, e), a, b),
{
    let i = index3(vaddr);
    let j = index2(vaddr);
    let x = index1(vaddr);
    let (slot, size) = m.locate(a, vaddr)->Ok_0;
    m.lemma_tree_walkable(a);
    m.lemma_located(a, vaddr);
    match size {
        PageSize::Size1G => m.lemma_put3(a, i, e),
        PageSize::Size2M => {
            assert(m.has2(a, i));
            assert(m.behind(a, i, slot.table));
            m.lemma_put2(a, i, j, e)
        },
        PageSize::Size4K => {
            assert(m.has1(a, i, j));
            assert(m.behind(a, i, slot.table));
            m.lemma_put1(a, i, j, x, e)
        },
    }
    m.lemma_changed_put(a, i, slot, e);
    lemma_clone_change(m, m.put(slot, e), a, b, i);
}

/// A change that is none keeps a page table and its clone together.
proof fn lemma_clone_same<PTE: GenericPTE>(m: Memory<PTE>, a: int, b: int)
    requires
        m.clones(a, b),
    ensures
        m.clone_follows(m, a, b),
{
    assert forall|vaddr: int| #[trigger]
        m.leaf(b, vaddr) == if m.shared(a, b, index3(vaddr)) {
            m.leaf(a, vaddr)
        } else {
            m.leaf(b, vaddr)
        } by {
        if m.shared(a, b, index3(vaddr)) {
            law_follows(m, a, b, vaddr);
        }
    }
}

proof fn lemma_clone_twice<PTE: GenericPTE>(
    m: Memory<PTE>,
    middle: Memory<PTE>,
    after: Memory<PTE>,
    a: int,
    b: int,
)
    requires
        m.clone_follows(middle, a, b),
        middle.clone_follows(after, a, b),
    ensures
        m.clone_follows(after, a, b),
{
    assert forall|i: int| #[trigger] after.shared(a, b, i) == m.shared(a, b, i) by {
        assert(middle.shared(a, b, i) == m.shared(a, b, i));
    }
    assert forall|i: int, t: int|
        !m.shared(a, b, i) implies #[trigger] after.behind(b, i, t) == m.behind(b, i, t) by {
        assert(middle.shared(a, b, i) == m.shared(a, b, i));
        assert(middle.behind(b, i, t) == m.behind(b, i, t));
    }
    assert forall|vaddr: int| #[trigger]
        after.leaf(b, vaddr) == if m.shared(a, b, index3(vaddr)) {
            after.leaf(a, vaddr)
        } else {
            m.leaf(b, vaddr)
        } by {
        assert(middle.shared(a, b, index3(vaddr)) == m.shared(a, b, index3(vaddr)));
        assert(middle.leaf(b, vaddr) == if m.shared(a, b, index3(vaddr)) {
            middle.leaf(a, vaddr)
        } else {
            m.leaf(b, vaddr)
        });
    }
}

/// Taking back the mapping of a page keeps a page table and its clone together.
pub proof fn law_clone_unmap_page<PTE: GenericPTE>(m: Memory<PTE>, a: int, b: int, vaddr: int)
    requires
        m.wf(),
        m.clones(a, b),
        0 <= vaddr,
    ensures
        m.clone_follows(m.unmap_page(a, vaddr).mem, a, b),
{
    reveal(Memory::unmap_page);
    PTE::law_zero();
    if m.unmap_page(a, vaddr).result is Ok {
        lemma_clone_located(m, a, b, vaddr, PTE::zero());
    } else {
        lemma_clone_same(m, a, b);
    }
}

/// When a page table maps a region, its clone stays a page table and goes with it: what the two
/// share is translated alike by both, all else by the clone as before. The region may have been
/// mapped in part only.
pub proof fn law_clone_map<PTE: GenericPTE>(
    m: Memory<PTE>,
    a: int,
    b: int,
    vaddr: usize,
    left: usize,
    flags: MemFlags,
    mapper: Mapper,
)
    requires
        m.wf(),
        m.clones(a, b),
        vaddr % PAGE_SIZE == 0,
        left % PAGE_SIZE == 0,
        vaddr + left <= usize::MAX,
        maps_no_table::<PTE>(vaddr as int, left as int, flags, mapper),
    ensures
        m.clone_follows(m.map_run(a, vaddr as int, left as int, flags, mapper).mem, a, b),
    decreases left,
{
    if left > 0 {
        let paddr = mapper.map_fn(vaddr);
        let size = page_size_for(vaddr, paddr, left as int, flags);
        let page = m.map_page(a, vaddr as int, size, paddr, flags);
        let done = m.map_run(a, vaddr as int, left as int, flags, mapper);
        lemma_map_step(m, a, vaddr, left, flags, mapper);
        law_clone_map_page(m, a, b, vaddr as int, size, paddr, flags);
        if page.result is Ok {
            let next = (vaddr + size.bytes()) as usize;
            law_clone_map(page.mem, a, b, next, (left - size.bytes()) as usize, flags, mapper);
            lemma_clone_twice(m, page.mem, done.mem, a, b);
        }
    } else {
        lemma_clone_same(m, a, b);
    }
}

/// When a page table takes back the mapping of a region, its clone stays a page table and goes with
/// it.
pub proof fn law_clone_unmap<PTE: GenericPTE>(
    m: Memory<PTE>,
    a: int,
    b: int,
    vaddr: usize,
    left: usize,
)
    requires
        m.wf(),
        m.clones(a, b),
        vaddr + left <= usize::MAX,
        m.unmaps_whole_pages(a, vaddr as int, left as int),
    ensures
        m.clone_follows(m.unmap_run(a, vaddr as int, left as int).mem, a, b),
    decreases left,
{
    if left > 0 {
        let page = m.unmap_page(a, vaddr as int);
        let done = m.unmap_run(a, vaddr as int, left as int);
        lemma_unmap_step(m, a, vaddr, left);
        law_clone_unmap_page(m, a, b, vaddr as int);
        if let Ok((_, size)) = page.result {
            let next = (vaddr + size.bytes()) as usize;
            law_clone_unmap(page.mem, a, b, next, (left - size.bytes()) as usize);
            lemma_clone_twice(m, page.mem, done.mem, a, b);
        }
    } else {
        lemma_clone_same(m, a, b);
    }
}

/// When a page table changes the mapping of a page, its clone stays a page table and goes with it.
pub proof fn law_clone_update<PTE: GenericPTE>(
    m: Memory<PTE>,
    a: int,
    b: int,
    vaddr: int,
    paddr: PhysAddr,
    flags: MemFlags,
)
    requires
        m.wf(),
        m.clones(a, b),
        0 <= vaddr,
        m.update_keeps_tree(a, vaddr, paddr, flags),
    ensures
        m.clone_follows(m.update_page(a, vaddr, paddr, flags).mem, a, b),
{
    if let Ok((slot, _)) = m.locate(a, vaddr) {
        lemma_clone_located(m, a, b, vaddr, m.at(slot).with_addr(paddr).with_flags(flags));
    } else {
        lemma_clone_same(m, a, b);
    }
}

/// Whatever is done to one page table of a family, any two others of it stay clones.
pub proof fn law_clone_family<PTE: GenericPTE>(
    m: Memory<PTE>,
    after: Memory<PTE>,
    a: int,
    b: int,
    c: int,
)
    requires
        m.clones(b, c),
        m.clone_follows(after, a, b),
        m.clone_follows(after, a, c),
    ensures
        after.clones(b, c),
{
    lemma_family(m, after, a, b, c);
    lemma_family_roots(m, after, a, b, c);
    lemma_family_roots(m, after, a, c, b);
}

proof fn lemma_shared_behind<PTE: GenericPTE>(m: Memory<PTE>, a: int, b: int, i: int, t: int)
    ensures
        m.shared(a, b, i) ==> m.behind(b, i, t) == m.behind(a, i, t),
{
    if m.shared(a, b, i) {
        assert forall|j: int| #[trigger] m.has1(b, i, j) == m.has1(a, i, j) by {}
        if m.behind(a, i, t) && m.t2(a, i) != t {
            let j = choose|j: int| #[trigger] m.has1(a, i, j) && m.t1(a, i, j) == t;
            assert(m.has1(b, i, j) && m.t1(b, i, j) == t);
        }
        if m.behind(b, i, t) && m.t2(b, i) != t {
            let j = choose|j: int| #[trigger] m.has1(b, i, j) && m.t1(b, i, j) == t;
            assert(m.has1(a, i, j) && m.t1(a, i, j) == t);
        }
    }
}

proof fn lemma_family<PTE: GenericPTE>(
    m: Memory<PTE>,
    after: Memory<PTE>,
    a: int,
    b: int,
    c: int,
)
    requires
        m.clones(b, c),
        m.clone_follows(after, a, b),
        m.clone_follows(after, a, c),
    ensures
        forall|i: int, k: int, t: int| #[trigger]
            after.behind(b, i, t) && #[trigger] after.behind(c, k, t) ==> i == k && after.entry(b, i)
                == after.entry(c, k),
{
    after.lemma_behind(a);
    assert forall|i: int, k: int, t: int| #[trigger]
        after.behind(b, i, t) && #[trigger] after.behind(c, k, t) implies i == k && after.entry(
        b,
        i,
    ) == after.entry(c, k) by {
        assert(after.shared(a, b, i) == m.shared(a, b, i));
        assert(after.shared(a, c, k) == m.shared(a, c, k));
        lemma_shared_behind(after, a, b, i, t);
        lemma_shared_behind(after, a, c, k, t);
        if m.shared(a, b, i) {
            assert(after.behind(a, i, t));
            assert(i == k && after.entry(a, i) == after.entry(c, k));
        } else if m.shared(a, c, k) {
            assert(after.behind(a, k, t));
            assert(i == k && after.entry(a, k) == after.entry(b, i));
        } else {
            assert(m.behind(b, i, t));
            assert(m.behind(c, k, t));
        }
    }
}

proof fn lemma_family_roots<PTE: GenericPTE>(
    m: Memory<PTE>,
    after: Memory<PTE>,
    a: int,
    b: int,
    c: int,
)
    requires
        !m.owns(b, c),
        m.clone_follows(after, a, b),
        m.clone_follows(after, a, c),
    ensures
        !after.owns(b, c),
{
    after.lemma_owns_behind(b, c);
    after.lemma_owns_behind(a, c);
    m.lemma_owns_behind(b, c);
    if after.owns(b, c) {
        let i = choose|i: int| #[trigger] after.behind(b, i, c);
        assert(after.shared(a, b, i) == m.shared(a, b, i));
        lemma_shared_behind(after, a, b, i, c);
        if !m.shared(a, b, i) {
            assert(m.behind(b, i, c));
        } else {
            assert(after.behind(a, i, c));
        }
    }
}

/// A page table and its new clone share all tables but their roots.
pub proof fn law_clone_made<PTE: GenericPTE>(m: Memory<PTE>, src: int, dst: int)
    requires
        m.wf(),
        m.tree(src),
        m.free_run(dst, ROOT_FRAMES as int),
    ensures
        ({
            let after = m.clone_root(src, dst);
            &&& after.clones(src, dst)
            &&& forall|i: int|
                0 <= i < 512 ==> #[trigger] after.entry(dst, i) == after.entry(src, i)
        }),
{
    let after = m.clone_root(src, dst);
    law_clone_root(m, src, dst);
    m.lemma_tree_walkable(src);
    m.lemma_free_run(dst, ROOT_FRAMES as int, 0);
    m.lemma_allocate_keeps(dst, ROOT_FRAMES as int, src);
    assert forall|i: int| 0 <= i < 512 implies #[trigger] after.entry(dst, i) == after.entry(
        src,
        i,
    ) by {}
    after.lemma_behind(src);
    after.lemma_behind(dst);
    assert forall|i: int, t: int| #[trigger] after.behind(dst, i, t) == after.behind(src, i, t) by {
        assert(after.has2(dst, i) == after.has2(src, i));
        if after.has2(src, i) {
            assert(after.shared(src, dst, i));
            lemma_shared_behind(after, src, dst, i, t);
        }
    }
    after.lemma_owns_behind(src, dst);
    after.lemma_owns_behind(dst, src);
    if after.owns(src, dst) {
        let i = choose|i: int| #[trigger] after.behind(src, i, dst);
        assert(after.behind(dst, i, dst));
    }
    if after.owns(dst, src) {
        let i = choose|i: int| #[trigger] after.behind(dst, i, src);
        assert(after.behind(src, i, src));
    }
}

/// A new clone is a clone of the clones of its original too, and making it disturbs none of them.
pub proof fn law_clone_made_family<PTE: GenericPTE>(m: Memory<PTE>, src: int, dst: int, other: int)
    requires
        m.wf(),
        m.clones(src, other),
        m.free_run(dst, ROOT_FRAMES as int),
    ensures
        ({
            let after = m.clone_root(src, dst);
            &&& after.clones(src, other)
            &&& after.clones(dst, other)
            &&& forall|vaddr: int| #[trigger] after.leaf(other, vaddr) == m.leaf(other, vaddr)
        }),
{
    let after = m.clone_root(src, dst);
    law_clone_made(m, src, dst);
    lemma_made_untouched(m, src, dst, src);
    lemma_made_untouched(m, src, dst, other);
    m.lemma_tree_walkable(src);
    m.lemma_tree_walkable(other);
    m.lemma_free_run(dst, ROOT_FRAMES as int, 0);
    m.lemma_allocate_keeps(dst, ROOT_FRAMES as int, src);
    m.lemma_allocate_keeps(dst, ROOT_FRAMES as int, other);
    m.lemma_behind(other);
    after.lemma_behind(src);
    assert forall|i: int, t: int| #[trigger] after.behind(dst, i, t) == m.behind(src, i, t) by {
        if 0 <= i < 512 {
            assert(after.entry(dst, i) == after.entry(src, i));
        }
        assert(after.has2(dst, i) == after.has2(src, i));
        if after.has2(src, i) {
            assert(after.shared(src, dst, i));
            lemma_shared_behind(after, src, dst, i, t);
        }
        assert(after.behind(src, i, t) == m.behind(src, i, t));
    }
    m.lemma_owns_behind(src, other);
    after.lemma_owns_behind(dst, other);
    after.lemma_owns_behind(other, dst);
    if after.owns(dst, other) {
        let i = choose|i: int| #[trigger] after.behind(dst, i, other);
        assert(m.behind(src, i, other));
    }
    if after.owns(other, dst) {
        let i = choose|i: int| #[trigger] after.behind(other, i, dst);
        assert(m.behind(other, i, dst));
    }
    assert forall|i: int, k: int, t: int| #[trigger]
        after.behind(dst, i, t) && #[trigger] after.behind(other, k, t) implies i == k
        && after.entry(dst, i) == after.entry(other, k) by {
        assert(m.behind(src, i, t));
        assert(m.behind(other, k, t));
    }
    assert forall|i: int, k: int, t: int| #[trigger]
        after.behind(src, i, t) && #[trigger] after.behind(other, k, t) implies i == k
        && after.entry(src, i) == after.entry(other, k) by {
        assert(m.behind(src, i, t));
        assert(m.behind(other, k, t));
    }
}

/// Making a clone leaves every page table as it is.
proof fn lemma_made_untouched<PTE: GenericPTE>(m: Memory<PTE>, src: int, dst: int, root: int)
    requires
        m.wf(),
        m.tree(src),
        m.tree(root),
        m.free_run(dst, ROOT_FRAMES as int),
    ensures
        ({
            let after = m.clone_root(src, dst);
            &&& after.tree(root)
            &&& after.tables[root] == m.tables[root]
            &&& forall|t: int| #[trigger] after.owns(root, t) <==> m.owns(root, t)
            &&& forall|i: int, t: int| #[trigger] after.behind(root, i, t) == m.behind(root, i, t)
            &&& forall|vaddr: int| #[trigger] after.leaf(root, vaddr) == m.leaf(root, vaddr)
        }),
{
    let after = m.clone_root(src, dst);
    m.lemma_free_run(dst, ROOT_FRAMES as int, 0);
    m.lemma_owned_live(root);
    assert(after.tables.dom() =~= m.tables.dom());
    assert forall|t: int| #[trigger] m.owns(root, t) implies after.tables[t] == m.tables[t]
        && after.allocated.contains(t) by {
        m.lemma_allocate_keeps(dst, ROOT_FRAMES as int, t);
    }
    law_untouched(m, after, root);
    assert(m.owns(root, root));
    assert forall|i: int, t: int| #[trigger] after.behind(root, i, t) == m.behind(root, i, t) by {
        assert(after.has2(root, i) == m.has2(root, i));
        if m.behind(root, i, t) && m.t2(root, i) != t {
            let j = choose|j: int| #[trigger] m.has1(root, i, j) && m.t1(root, i, j) == t;
            assert(after.has1(root, i, j) && after.t1(root, i, j) == t);
        }
        if after.behind(root, i, t) && after.t2(root, i) != t {
            let j = choose|j: int| #[trigger] after.has1(root, i, j) && after.t1(root, i, j) == t;
            assert(m.has1(root, i, j) && m.t1(root, i, j) == t);
        }
    }
}

} // verus!
