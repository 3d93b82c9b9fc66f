//! What holds of walks through the tables.
use vstd::prelude::*;

use crate::entry::GenericPTE;
use crate::memory::Memory;
use crate::model::is_table;
use crate::table::{
    lemma_step_bound, present_before, walk_addr, walk_from, walk_reaches, walk_step, walkable_from,
    WalkItem,
};

verus! {

impl<PTE: GenericPTE> Memory<PTE> {
    /// The table is met from the root on behind `level` other ones, and `start` is the address of
    /// its first entry on a walk.
    pub open spec fn at_level(self, root: int, table: int, level: int, start: int) -> bool {
        if level == 0 {
            table == root && start == 0
        } else if level == 1 {
            exists|i: int| #[trigger]
                self.has2(root, i) && self.t2(root, i) == table && start == i * walk_step(0)
        } else {
            level == 2 && exists|i: int, j: int| #[trigger]
                self.has1(root, i, j) && self.t1(root, i, j) == table && start == i * walk_step(0)
                    + j * walk_step(1)
        }
    }

    /// The item stands for a present entry of a table of the page table.
    pub open spec fn item_ok(self, root: int, item: WalkItem) -> bool {
        &&& self.at_level(
            root,
            item.table as int,
            item.level as int,
            item.vaddr - item.index * walk_step(item.level as int),
        )
        &&& item.index < 512
        &&& self.entry(item.table as int, item.index as int).present()
    }

    proof fn lemma_next_level(self, root: int, table: int, level: int, start: int, i: int)
        requires
            self.at_level(root, table, level, start),
            level < 2,
            0 <= i < 512,
            is_table(self.entry(table, i)),
        ensures
            self.at_level(
                root,
                self.entry(table, i).target() as int,
                level + 1,
                start + i * walk_step(level),
            ),
    {
        if level == 0 {
            assert(self.has2(root, i));
        } else {
            let k = choose|k: int| #[trigger]
                self.has2(root, k) && self.t2(root, k) == table && start == k * walk_step(0);
            assert(self.has1(root, k, i));
        }
    }

    /// The addresses of a walk are small.
    proof fn lemma_walk_bound(self, root: int, table: int, level: int, start: int)
        requires
            self.at_level(root, table, level, start),
        ensures
            0 <= start <= 0x1_0000_0000_0000,
    {
    }
}

/// All that a walk meets are present entries of tables of the page table.
pub proof fn law_walk_sound<PTE: GenericPTE>(m: Memory<PTE>, root: int, limit: int)
    requires
        m.wf(),
        walkable_from(m, root, 0, limit),
    ensures
        forall|item: WalkItem| #[trigger]
            walk_from(m, root, 0, 0, limit, 0, 0).contains(item) ==> m.item_ok(root, item),
{
    assert forall|item: WalkItem| #[trigger]
        walk_from(m, root, 0, 0, limit, 0, 0).contains(item) implies m.item_ok(root, item) by {
        lemma_walk_sound(m, root, root, 0, 0, limit, 0, 0, item);
    }
}

proof fn lemma_walk_sound<PTE: GenericPTE>(
    m: Memory<PTE>,
    root: int,
    table: int,
    level: int,
    start: int,
    limit: int,
    i: int,
    n: int,
    item: WalkItem,
)
    requires
        m.wf(),
        walkable_from(m, table, level, limit),
        0 <= level <= 2,
        0 <= i,
        n == present_before(m, table, i),
        walk_reaches(m, table, limit, i),
        m.at_level(root, table, level, start),
        walk_from(m, table, level, start, limit, i, n).contains(item),
    ensures
        m.item_ok(root, item),
    decreases 3 - level, 512 - i,
{
    if i < 512 {
        let e = m.entry(table, i);
        let vaddr = start + i * walk_step(level);
        if e.present() {
            assert(m.tables.contains_key(table));
            m.lemma_walk_bound(root, table, level, start);
            lemma_step_bound(i, level);
            let first = WalkItem {
                level: level as usize,
                index: i as usize,
                vaddr: vaddr as u64,
                table: table as usize,
            };
            let below = if level < 2 && !e.huge() {
                walk_from(m, e.target() as int, level + 1, vaddr, limit, 0, 0)
            } else {
                Seq::empty()
            };
            let rest = if n + 1 >= limit {
                Seq::empty()
            } else {
                walk_from(m, table, level, start, limit, i + 1, n + 1)
            };
            let all = walk_from(m, table, level, start, limit, i, n);
            assert(all == seq![first] + below + rest);
            let k = choose|k: int| 0 <= k < all.len() && all[k] == item;
            if k == 0 {
                assert(item.vaddr - item.index * walk_step(item.level as int) == start);
            } else if k < 1 + below.len() {
                assert(below[k - 1] == item);
                m.lemma_next_level(root, table, level, start, i);
                lemma_walk_sound(
                    m,
                    root,
                    e.target() as int,
                    level + 1,
                    vaddr,
                    limit,
                    0,
                    0,
                    item,
                );
            } else {
                assert(rest[k - 1 - below.len()] == item);
                lemma_walk_sound(m, root, table, level, start, limit, i + 1, n + 1, item);
            }
        } else {
            lemma_walk_sound(m, root, table, level, start, limit, i + 1, n, item);
        }
    }
}

/// A walk whose limit is no less than the entries of a table meets every present entry of every
/// table of the page table.
pub proof fn law_walk_complete<PTE: GenericPTE>(
    m: Memory<PTE>,
    root: int,
    limit: int,
    table: int,
    level: int,
    start: int,
    x: int,
)
    requires
        m.wf(),
        m.walkable(root),
        limit >= 512,
        0 <= level <= 2,
        m.at_level(root, table, level, start),
        0 <= x < 512,
        m.entry(table, x).present(),
    ensures
        exists|item: WalkItem| #[trigger]
            walk_from(m, root, 0, 0, limit, 0, 0).contains(item) && item.table == table
                && item.index == x && item.level == level && item.vaddr == start + x * walk_step(level),
{
    m.lemma_walk_bound(root, table, level, start);
    if level == 0 {
        let item = lemma_walk_here(m, root, 0, 0, limit, 0, 0, x);
    } else if level == 1 {
        let i = choose|i: int| #[trigger]
            m.has2(root, i) && m.t2(root, i) == table && start == i * walk_step(0);
        let item = lemma_walk_here(m, table, 1, start, limit, 0, 0, x);
        lemma_walk_below(m, root, 0, 0, limit, 0, 0, i, item);
    } else {
        let (i, j) = choose|i: int, j: int| #[trigger]
            m.has1(root, i, j) && m.t1(root, i, j) == table && start == i * walk_step(0) + j
                * walk_step(1);
        assert(m.has2(root, i));
        let outer = i * walk_step(0);
        let item = lemma_walk_here(m, table, 2, start, limit, 0, 0, x);
        lemma_walk_below(m, m.t2(root, i), 1, outer, limit, 0, 0, j, item);
        lemma_walk_below(m, root, 0, 0, limit, 0, 0, i, item);
    }
}

/// A present entry of the table itself is met.
proof fn lemma_walk_here<PTE: GenericPTE>(
    m: Memory<PTE>,
    table: int,
    level: int,
    start: int,
    limit: int,
    i: int,
    n: int,
    x: int,
) -> (item: WalkItem)
    requires
        m.wf(),
        m.tables.contains_key(table),
        limit >= 512,
        0 <= level <= 2,
        0 <= n <= i <= x < 512,
        0 <= start <= 0x1_0000_0000_0000,
        m.entry(table, x).present(),
    ensures
        walk_from(m, table, level, start, limit, i, n).contains(item),
        item.table == table,
        item.index == x,
        item.level == level,
        item.vaddr == start + x * walk_step(level),
    decreases x - i,
{
    let all = walk_from(m, table, level, start, limit, i, n);
    lemma_step_bound(x, level);
    if i == x {
        all[0]
    } else if m.entry(table, i).present() {
        let item = lemma_walk_here(m, table, level, start, limit, i + 1, n + 1, x);
        let rest = walk_from(m, table, level, start, limit, i + 1, n + 1);
        let k = choose|k: int| 0 <= k < rest.len() && rest[k] == item;
        assert(all[all.len() - rest.len() + k] == item);
        item
    } else {
        lemma_walk_here(m, table, level, start, limit, i + 1, n, x)
    }
}

/// What is met behind an entry of the table is met.
proof fn lemma_walk_below<PTE: GenericPTE>(
    m: Memory<PTE>,
    table: int,
    level: int,
    start: int,
    limit: int,
    i: int,
    n: int,
    x: int,
    item: WalkItem,
)
    requires
        m.wf(),
        m.tables.contains_key(table),
        limit >= 512,
        0 <= level < 2,
        0 <= n <= i <= x < 512,
        0 <= start <= 0x1_0000_0000_0000,
        is_table(m.entry(table, x)),
        walk_from(
            m,
            m.entry(table, x).target() as int,
            level + 1,
            start + x * walk_step(level),
            limit,
            0,
            0,
        ).contains(item),
    ensures
        walk_from(m, table, level, start, limit, i, n).contains(item),
    decreases x - i,
{
    let all = walk_from(m, table, level, start, limit, i, n);
    lemma_step_bound(x, level);
    if i == x {
        let below = walk_from(
            m,
            m.entry(table, x).target() as int,
            level + 1,
            start + x * walk_step(level),
            limit,
            0,
            0,
        );
        let k = choose|k: int| 0 <= k < below.len() && below[k] == item;
        assert(all[1 + k] == item);
    } else if m.entry(table, i).present() {
        lemma_walk_below(m, table, level, start, limit, i + 1, n + 1, x, item);
        let rest = walk_from(m, table, level, start, limit, i + 1, n + 1);
        let k = choose|k: int| 0 <= k < rest.len() && rest[k] == item;
        assert(all[all.len() - rest.len() + k] == item);
    } else {
        lemma_walk_below(m, table, level, start, limit, i + 1, n, x, item);
    }
}

/// Entry `x` of the table is one that a walk lists: it is present, and fewer entries before it are
/// present than a walk takes of a table, which is one at least.
pub open spec fn listed<PTE: GenericPTE>(m: Memory<PTE>, table: int, limit: int, x: int) -> bool {
    let before = m.tables[table].take(x).filter(|e: PTE| e.present()).len();
    &&& 0 <= x < 512
    &&& m.tables[table][x].present()
    &&& before == 0 || before < limit
}

/// A walk lists its entries in the order of their addresses, and an entry before what lies behind
/// it at the same address. So nothing is listed twice.
pub proof fn law_walk_order<PTE: GenericPTE>(m: Memory<PTE>, root: int, limit: int, p: int, q: int)
    requires
        m.wf(),
        0 <= p < q < walk_from(m, root, 0, 0, limit, 0, 0).len(),
    ensures
        ({
            let met = walk_from(m, root, 0, 0, limit, 0, 0);
            &&& met[p].vaddr < met[q].vaddr || met[p].vaddr == met[q].vaddr && met[p].level
                < met[q].level
            &&& met[p] != met[q]
        }),
{
    lemma_walk_order(m, root, 0, 0, limit, 0, 0);
}

/// The address of an entry on a walk is that of the first entry of its table and as many steps more
/// as its index, modulo the address space. A step is as long as all the steps of a table behind it.
pub proof fn law_walk_addr(start: int, i: int, level: int)
    requires
        0 <= start <= u64::MAX,
        0 <= i < 512,
        0 <= level <= 2,
    ensures
        walk_addr(start, i, level) == (start + i * (if level == 0 {
            0x80_0000_0000int
        } else if level == 1 {
            0x4000_0000
        } else {
            0x20_0000
        })) % 0x1_0000_0000_0000_0000,
{
    lemma_step_bound(i, level);
}

/// What is listed of a last table, wherever its addresses start: each entry that should be, with its
/// index and its address, in order, and nothing else.
pub proof fn law_walk_last_table<PTE: GenericPTE>(
    m: Memory<PTE>,
    table: int,
    start: int,
    limit: int,
    item: WalkItem,
    p: int,
    q: int,
)
    requires
        m.wf(),
        m.tables.contains_key(table),
        0 <= start,
        start + 512 * 0x20_0000 <= u64::MAX + 1,
    ensures
        ({
            let met = walk_from(m, table, 2, start, limit, 0, 0);
            &&& met.contains(item) <==> {
                &&& item.level == 2 && item.table == table
                &&& listed(m, table, limit, item.index as int)
                &&& item.vaddr == start + item.index * 0x20_0000
            }
            &&& 0 <= p < q < met.len() ==> met[p].vaddr < met[q].vaddr
        }),
{
    lemma_walk_level(m, table, 2, start, limit, 0, 0, item);
    lemma_walk_order(m, table, 2, start, limit, 0, 0);
}

/// The items come in order, and within the span of the table.
proof fn lemma_walk_order<PTE: GenericPTE>(
    m: Memory<PTE>,
    table: int,
    level: int,
    start: int,
    limit: int,
    i: int,
    n: int,
)
    requires
        0 <= level <= 2,
        0 <= i <= 512,
        0 <= start,
        start + 512 * walk_step(level) <= u64::MAX + 1,
    ensures
        ({
            let met = walk_from(m, table, level, start, limit, i, n);
            &&& forall|k: int|
                0 <= k < met.len() ==> start + i * walk_step(level) <= (#[trigger] met[k]).vaddr
                    < start + 512 * walk_step(level) && level <= met[k].level <= 2
            &&& forall|p: int, q: int|
                0 <= p < q < met.len() ==> (#[trigger] met[p]).vaddr < (#[trigger] met[q]).vaddr
                    || met[p].vaddr == met[q].vaddr && met[p].level < met[q].level
        }),
    decreases 3 - level, 512 - i,
{
    let met = walk_from(m, table, level, start, limit, i, n);
    let step = walk_step(level);
    assert(i == 512 ==> met.len() == 0);
    if i < 512 {
        lemma_step_bound(i, level);
        lemma_next_step(i, step);
        let e = m.entry(table, i);
        let vaddr = start + i * step;
        assert(walk_addr(start, i, level) == vaddr);
        if e.present() {
            let first = WalkItem {
                level: level as usize,
                index: i as usize,
                vaddr: vaddr as u64,
                table: table as usize,
            };
            let below = if level < 2 && !e.huge() {
                walk_from(m, e.target() as int, level + 1, vaddr, limit, 0, 0)
            } else {
                Seq::empty()
            };
            let rest = if n + 1 >= limit {
                Seq::empty()
            } else {
                walk_from(m, table, level, start, limit, i + 1, n + 1)
            };
            assert(met == seq![first] + below + rest);
            if level < 2 && !e.huge() {
                assert(512 * walk_step(level + 1) == step);
                lemma_walk_order(m, e.target() as int, level + 1, vaddr, limit, 0, 0);
            }
            if n + 1 < limit {
                lemma_walk_order(m, table, level, start, limit, i + 1, n + 1);
            }
            assert forall|k: int| 0 <= k < met.len() implies start + i * step <= (
            #[trigger] met[k]).vaddr < start + 512 * step && level <= met[k].level <= 2 by {
                if 0 < k < 1 + below.len() {
                    assert(met[k] == below[k - 1]);
                }
                if k >= 1 + below.len() {
                    assert(met[k] == rest[k - 1 - below.len()]);
                }
            }
            assert forall|p: int, q: int| 0 <= p < q < met.len() implies (#[trigger] met[p]).vaddr
                < (#[trigger] met[q]).vaddr || met[p].vaddr == met[q].vaddr && met[p].level
                < met[q].level by {
                let in_below = 1 + below.len();
                if q < in_below {
                    assert(met[q] == below[q - 1]);
                    if p > 0 {
                        assert(met[p] == below[p - 1]);
                    }
                } else {
                    assert(met[q] == rest[q - in_below]);
                    if p >= in_below {
                        assert(met[p] == rest[p - in_below]);
                    } else if p > 0 {
                        assert(met[p] == below[p - 1]);
                    }
                }
            }
        } else {
            let rest = walk_from(m, table, level, start, limit, i + 1, n);
            lemma_walk_order(m, table, level, start, limit, i + 1, n);
            assert(met == rest);
            assert forall|k: int| 0 <= k < met.len() implies start + i * step <= (
            #[trigger] met[k]).vaddr < start + 512 * step && level <= met[k].level <= 2 by {
                assert(met[k] == rest[k]);
            }
        }
    }
}

proof fn lemma_next_step(i: int, step: int)
    by (nonlinear_arith)
    requires
        0 <= i < 512,
        0 < step,
    ensures
        (i + 1) * step == i * step + step,
        i * step + step <= 512 * step,
{
}

/// A walk lists what it should and nothing else: the entries of the root that are present, as many
/// as it takes of a table, and behind each of them that leads to a table those of that table in the
/// same way, and behind them those of the last tables. Each is listed with its level, its index,
/// its table and its address.
pub proof fn law_walk_items<PTE: GenericPTE>(
    m: Memory<PTE>,
    root: int,
    limit: int,
    item: WalkItem,
)
    requires
        m.wf(),
        walkable_from(m, root, 0, limit),
    ensures
        walk_from(m, root, 0, 0, limit, 0, 0).contains(item) <==> {
            ||| {
                &&& item.level == 0 && item.table == root
                &&& listed(m, root, limit, item.index as int)
                &&& item.vaddr == item.index * 0x80_0000_0000
            }
            ||| exists|i: int| #[trigger]
                listed(m, root, limit, i) && {
                    let e3 = m.tables[root][i];
                    &&& !e3.huge()
                    &&& item.level == 1 && item.table == e3.target()
                    &&& listed(m, e3.target() as int, limit, item.index as int)
                    &&& item.vaddr == i * 0x80_0000_0000 + item.index * 0x4000_0000
                }
            ||| exists|i: int, j: int|
                #![trigger listed(m, root, limit, i), listed(m, m.tables[root][i].target() as int, limit, j)]
                {
                    let e3 = m.tables[root][i];
                    let e2 = m.tables[e3.target() as int][j];
                    &&& listed(m, root, limit, i) && !e3.huge()
                    &&& listed(m, e3.target() as int, limit, j) && !e2.huge()
                    &&& item.level == 2 && item.table == e2.target()
                    &&& listed(m, e2.target() as int, limit, item.index as int)
                    &&& item.vaddr == i * 0x80_0000_0000 + j * 0x4000_0000 + item.index * 0x20_0000
                }
        },
{
    lemma_walk_level(m, root, 0, 0, limit, 0, 0, item);
    let met = walk_from(m, root, 0, 0, limit, 0, 0);
    assert forall|i: int| #[trigger] listed(m, root, limit, i) && !m.tables[root][i].huge() implies {
        let t2 = m.tables[root][i].target() as int;
        &&& walkable_from(m, t2, 1, limit)
        &&& walk_from(m, t2, 1, i * 0x80_0000_0000, limit, 0, 0).contains(item) <==> {
            ||| {
                &&& item.level == 1 && item.table == t2
                &&& listed(m, t2, limit, item.index as int)
                &&& item.vaddr == i * 0x80_0000_0000 + item.index * 0x4000_0000
            }
            ||| exists|j: int| #[trigger]
                listed(m, t2, limit, j) && {
                    let e2 = m.tables[t2][j];
                    &&& !e2.huge()
                    &&& item.level == 2 && item.table == e2.target()
                    &&& listed(m, e2.target() as int, limit, item.index as int)
                    &&& item.vaddr == i * 0x80_0000_0000 + j * 0x4000_0000 + item.index * 0x20_0000
                }
        }
    } by {
        let t2 = m.tables[root][i].target() as int;
        lemma_present_before(m, root, i);
        assert(walk_reaches(m, root, limit, i) && is_table(m.entry(root, i)));
        assert(walkable_from(m, t2, 1, limit));
        let outer = i * 0x80_0000_0000;
        lemma_walk_level(m, t2, 1, outer, limit, 0, 0, item);
        assert forall|j: int| #[trigger] listed(m, t2, limit, j) && !m.tables[t2][j].huge() implies {
            let t1 = m.tables[t2][j].target() as int;
            walk_from(m, t1, 2, outer + j * 0x4000_0000, limit, 0, 0).contains(item) <==> {
                &&& item.level == 2 && item.table == t1
                &&& listed(m, t1, limit, item.index as int)
                &&& item.vaddr == outer + j * 0x4000_0000 + item.index * 0x20_0000
            }
        } by {
            let t1 = m.tables[t2][j].target() as int;
            lemma_present_before(m, t2, j);
            assert(walk_reaches(m, t2, limit, j) && is_table(m.entry(t2, j)));
            assert(walkable_from(m, t1, 2, limit));
            lemma_walk_level(m, t1, 2, outer + j * 0x4000_0000, limit, 0, 0, item);
        }
    }
}

/// The entries of a table before entry `x` that are present, counted in two ways.
proof fn lemma_present_before<PTE: GenericPTE>(m: Memory<PTE>, table: int, x: int)
    requires
        0 <= x <= m.tables[table].len(),
    ensures
        present_before(m, table, x) == m.tables[table].take(x).filter(|e: PTE| e.present()).len(),
    decreases x,
{
    reveal(Seq::filter);
    let all = m.tables[table];
    if x > 0 {
        lemma_present_before(m, table, x - 1);
        assert(all.take(x).drop_last() =~= all.take(x - 1));
        assert(all.take(x).last() == all[x - 1]);
    } else {
        assert(all.take(0) =~= Seq::empty());
    }
}

/// What is met in a table from entry `i` on: each entry that is listed, and what is met behind it.
proof fn lemma_walk_level<PTE: GenericPTE>(
    m: Memory<PTE>,
    table: int,
    level: int,
    start: int,
    limit: int,
    i: int,
    n: int,
    item: WalkItem,
)
    requires
        m.wf(),
        walkable_from(m, table, level, limit),
        0 <= level <= 2,
        0 <= start,
        start + 512 * walk_step(level) <= u64::MAX + 1,
        0 <= i <= 512,
        n == present_before(m, table, i),
        n == 0 || n < limit,
    ensures
        walk_from(m, table, level, start, limit, i, n).contains(item) <==> {
            ||| {
                &&& item.level == level && item.table == table
                &&& i <= item.index && listed(m, table, limit, item.index as int)
                &&& item.vaddr == start + item.index * walk_step(level)
            }
            ||| level < 2 && exists|x: int| #[trigger]
                listed(m, table, limit, x) && i <= x && !m.tables[table][x].huge() && walk_from(
                    m,
                    m.tables[table][x].target() as int,
                    level + 1,
                    start + x * walk_step(level),
                    limit,
                    0,
                    0,
                ).contains(item)
        },
    decreases 512 - i,
{
    let met = walk_from(m, table, level, start, limit, i, n);
    let step = walk_step(level);
    assert forall|x: int| 0 <= x <= 512 implies #[trigger] present_before(m, table, x)
        == m.tables[table].take(x).filter(|e: PTE| e.present()).len() by {
        lemma_present_before(m, table, x);
    }
    if i < 512 {
        lemma_step_bound(i, level);
        let e = m.entry(table, i);
        let vaddr = start + i * step;
        assert(walk_addr(start, i, level) == vaddr);
        if e.present() {
            assert(listed(m, table, limit, i)) by {
                lemma_present_before(m, table, i);
            }
            let first = WalkItem {
                level: level as usize,
                index: i as usize,
                vaddr: vaddr as u64,
                table: table as usize,
            };
            let below = if level < 2 && !e.huge() {
                walk_from(m, e.target() as int, level + 1, vaddr, limit, 0, 0)
            } else {
                Seq::empty()
            };
            let rest = if n + 1 >= limit {
                Seq::empty()
            } else {
                walk_from(m, table, level, start, limit, i + 1, n + 1)
            };
            assert(met == seq![first] + below + rest);
            lemma_three_parts(first, below, rest, item);
            assert(m.tables.contains_key(table));
            if n + 1 < limit {
                lemma_walk_level(m, table, level, start, limit, i + 1, n + 1, item);
            } else {
                assert forall|x: int| i < x implies !#[trigger] listed(m, table, limit, x) by {
                    if x < 512 {
                        lemma_present_grows(m, table, i + 1, x);
                        lemma_present_before(m, table, x);
                    }
                }
            }
            assert(item == first <==> item.level == level && item.table == table && item.index == i
                && item.vaddr == vaddr);
        } else {
            lemma_walk_level(m, table, level, start, limit, i + 1, n, item);
            assert(!listed(m, table, limit, i));
        }
    }
}

proof fn lemma_three_parts(
    first: WalkItem,
    below: Seq<WalkItem>,
    rest: Seq<WalkItem>,
    item: WalkItem,
)
    ensures
        (seq![first] + below + rest).contains(item) <==> item == first || below.contains(item)
            || rest.contains(item),
{
    let all = seq![first] + below + rest;
    assert(all[0] == first);
    if below.contains(item) {
        let k = choose|k: int| 0 <= k < below.len() && below[k] == item;
        assert(all[1 + k] == item);
    }
    if rest.contains(item) {
        let k = choose|k: int| 0 <= k < rest.len() && rest[k] == item;
        assert(all[1 + below.len() + k] == item);
    }
    if all.contains(item) {
        let k = choose|k: int| 0 <= k < all.len() && all[k] == item;
        if 0 < k < 1 + below.len() {
            assert(below[k - 1] == item);
        }
        if k >= 1 + below.len() {
            assert(rest[k - 1 - below.len()] == item);
        }
    }
}

proof fn lemma_present_grows<PTE: GenericPTE>(m: Memory<PTE>, table: int, a: int, b: int)
    requires
        0 <= a <= b,
    ensures
        0 <= present_before(m, table, a) <= present_before(m, table, b),
    decreases a + b,
{
    if a < b {
        lemma_present_grows(m, table, a, b - 1);
    } else if a > 0 {
        lemma_present_grows(m, table, a - 1, a - 1);
    }
}

} // verus!
