//! Page tables that are only read.
use std::marker::PhantomData;
use vstd::prelude::*;

use crate::addr::{PhysAddr, VirtAddress};
use crate::entry::GenericPTE;
use crate::error::{PagingError, PagingResult};
use crate::flags::MemFlags;
use crate::memory::{Frame, Memory, PhysMemory, ROOT_FRAMES};
use crate::model::{is_table, next_table, Slot};
use crate::page::{p1_index, p2_index, p3_index, PageSize, ENTRY_COUNT};

verus! {

/// The answer to a query is this translation.
pub open spec fn answers(
    r: PagingResult<(PhysAddr, MemFlags, PageSize)>,
    translation: PagingResult<(int, MemFlags, PageSize)>,
) -> bool {
    match (r, translation) {
        (Ok(a), Ok(t)) => a.0 == t.0 && a.1 == t.1 && a.2 == t.2,
        (Err(a), Err(t)) => a == t,
        _ => false,
    }
}

/// A basic read-only page table for address query only.
pub trait GenericPageTableImmut: Sized {
    type VA: VirtAddress;

    type PTE: GenericPTE;

    /// The address of the root table.
    spec fn root(&self) -> PhysAddr;

    /// The tables on the way to `vaddr` are in memory, and what `vaddr` is translated to is an
    /// address.
    spec fn can_query(&self, m: Memory<Self::PTE>, vaddr: int) -> bool;

    /// What `vaddr` is translated to.
    spec fn translation(&self, m: Memory<Self::PTE>, vaddr: int) -> PagingResult<
        (int, MemFlags, PageSize),
    >;

    /// The page table whose root is found at `root_paddr`.
    fn from_root(root_paddr: PhysAddr) -> (r: Self)
        ensures
            r.root() == root_paddr,
    ;

    fn root_paddr(&self) -> (r: PhysAddr)
        ensures
            r == self.root(),
        opens_invariants none
    ;

    /// Translates `vaddr`.
    fn query(&self, mem: &PhysMemory<Self::PTE>, vaddr: Self::VA) -> (r: PagingResult<
        (PhysAddr, MemFlags, PageSize),
    >)
        requires
            mem.wf(),
            self.can_query(mem@, vaddr.number() as int),
        ensures
            answers(r, self.translation(mem@, vaddr.number() as int)),
    ;
}

/// An entry that was met on a walk through the tables.
#[derive(Debug, Copy, Clone)]
pub struct WalkItem {
    /// How many tables lie above the one that holds the entry.
    pub level: usize,
    /// The entry's index in its table.
    pub index: usize,
    pub vaddr: u64,
    /// The table that holds the entry.
    pub table: PhysAddr,
}

/// The distance between the addresses of neighbouring entries on a walk. A walk counts as if there
/// were one more level below the last: the distance is 512 times what an entry stands for.
pub open spec fn walk_step(level: int) -> int {
    if level == 0 {
        0x80_0000_0000
    } else if level == 1 {
        0x4000_0000
    } else if level == 2 {
        0x20_0000
    } else {
        0x1000
    }
}

/// How many entries of the table before entry `i` are present.
pub open spec fn present_before<PTE: GenericPTE>(m: Memory<PTE>, table: int, i: int) -> int
    decreases i,
{
    if i <= 0 {
        0
    } else if m.entry(table, i - 1).present() {
        present_before(m, table, i - 1) + 1
    } else {
        present_before(m, table, i - 1)
    }
}

/// A walk comes as far as entry `i` of the table: it leaves the table once `limit` entries of it
/// were met, but not before the first.
pub open spec fn walk_reaches<PTE: GenericPTE>(
    m: Memory<PTE>,
    table: int,
    limit: int,
    i: int,
) -> bool {
    present_before(m, table, i) == 0 || present_before(m, table, i) < limit
}

/// Every table that a walk meets, as far as `limit` entries of each table, is in memory.
pub open spec fn walkable_from<PTE: GenericPTE>(
    m: Memory<PTE>,
    table: int,
    level: int,
    limit: int,
) -> bool
    decreases 2 - level,
{
    &&& m.tables.contains_key(table)
    &&& level < 2 ==> forall|i: int|
        0 <= i < 512 && walk_reaches(m, table, limit, i) && is_table(#[trigger] m.entry(table, i))
            ==> walkable_from(m, m.entry(table, i).target() as int, level + 1, limit)
}

/// The address of entry `i` of a table on a walk, when that of the first entry is `start`. Addresses
/// that leave the address space go on from zero.
pub open spec fn walk_addr(start: int, i: int, level: int) -> int {
    let sum = start + i * walk_step(level);
    if sum <= u64::MAX {
        sum
    } else {
        sum - u64::MAX - 1
    }
}

/// No entry of a table lies further behind the first one than in the root.
pub(crate) proof fn lemma_step_bound(i: int, level: int)
    requires
        0 <= i < 512,
    ensures
        0 <= i * walk_step(level) <= 511 * 0x80_0000_0000,
{
    let step = walk_step(level);
    assert(0 <= i * step <= 511 * 0x80_0000_0000) by (nonlinear_arith)
        requires
            0 <= i <= 511,
            0 <= step <= 0x80_0000_0000,
    ;
}

/// What a walk meets in a table from entry `i` on, when `n` entries of the table were met
/// before: each present entry, followed by what is met behind it, until the table holds no more
/// or `limit` of its entries were met.
pub open spec fn walk_from<PTE: GenericPTE>(
    m: Memory<PTE>,
    table: int,
    level: int,
    start: int,
    limit: int,
    i: int,
    n: int,
) -> Seq<WalkItem>
    decreases 3 - level, 512 - i,
{
    if i < 0 || i >= 512 || level < 0 || level > 3 {
        Seq::empty()
    } else {
        let e = m.entry(table, i);
        let vaddr = walk_addr(start, i, level);
        if e.present() {
            let item = WalkItem {
                level: level as usize,
                index: i as usize,
                vaddr: vaddr as u64,
                table: table as usize,
            };
            let below = if level < 2 && !e.huge() {
                walk_from(m, e.target() as int, level + 1, vaddr, limit, 0, 0)
            } else {
                Seq::empty()
            };
            let rest = if n + 1 >= limit {
                Seq::empty()
            } else {
                walk_from(m, table, level, start, limit, i + 1, n + 1)
            };
            seq![item] + below + rest
        } else {
            walk_from(m, table, level, start, limit, i + 1, n)
        }
    }
}

/// The address of the table that an entry points to.
pub fn next_table_mut<E: GenericPTE>(entry: &E) -> (r: PagingResult<PhysAddr>)
    ensures
        match (r, next_table(*entry)) {
            (Ok(a), Ok(t)) => a == t,
            (Err(a), Err(t)) => a == t,
            _ => false,
        },
{
    if !entry.is_present() {
        Err(PagingError::NotMapped)
    } else if entry.is_huge() {
        Err(PagingError::MappedToHugePage)
    } else {
        Ok(entry.addr())
    }
}

impl<PTE: GenericPTE> PhysMemory<PTE> {
    /// Whether every table that is met from the root on is in memory.
    pub fn holds_tables(&self, root: PhysAddr) -> (r: bool)
        requires
            self.wf(),
        ensures
            r == self@.walkable(root as int),
    {
        if !self.has_frame(root) {
            return false;
        }
        let mut i: usize = 0;
        while i < ENTRY_COUNT
            invariant
                self.wf(),
                self@.tables.contains_key(root as int),
                i <= ENTRY_COUNT,
                forall|a: int|
                    a < i && #[trigger] self@.has2(root as int, a) ==> self@.tables.contains_key(
                        self@.t2(root as int, a),
                    ),
                forall|a: int, b: int|
                    a < i && #[trigger] self@.has1(root as int, a, b)
                        ==> self@.tables.contains_key(self@.t1(root as int, a, b)),
            decreases ENTRY_COUNT - i,
        {
            if let Ok(p2) = next_table_mut(self.entry(root, i)) {
                assert(self@.has2(root as int, i as int));
                if !self.holds_last_tables(p2) {
                    proof {
                        assert forall|b: int|
                            self@.walkable(root as int) && 0 <= b < 512 && is_table(
                                #[trigger] self@.entry(p2 as int, b),
                            ) implies self@.tables.contains_key(
                            self@.entry(p2 as int, b).target() as int,
                        ) by {
                            assert(self@.has1(root as int, i as int, b));
                        }
                    }
                    return false;
                }
                assert forall|b: int| #[trigger]
                    self@.has1(root as int, i as int, b) implies self@.tables.contains_key(
                    self@.t1(root as int, i as int, b),
                ) by {
                    assert(is_table(self@.entry(p2 as int, b)));
                }
            }
            i = i + 1;
        }
        true
    }

    /// Whether a middle table, and every table that it leads to, is in memory.
    fn holds_last_tables(&self, p2: PhysAddr) -> (r: bool)
        requires
            self.wf(),
        ensures
            r == (self@.tables.contains_key(p2 as int) && forall|j: int|
                0 <= j < 512 && is_table(#[trigger] self@.entry(p2 as int, j))
                    ==> self@.tables.contains_key(self@.entry(p2 as int, j).target() as int)),
    {
        if !self.has_frame(p2) {
            return false;
        }
        let mut j: usize = 0;
        while j < ENTRY_COUNT
            invariant
                self.wf(),
                self@.tables.contains_key(p2 as int),
                j <= ENTRY_COUNT,
                forall|b: int|
                    0 <= b < j && is_table(#[trigger] self@.entry(p2 as int, b))
                        ==> self@.tables.contains_key(self@.entry(p2 as int, b).target() as int),
            decreases ENTRY_COUNT - j,
        {
            if let Ok(p1) = next_table_mut(self.entry(p2, j)) {
                if !self.has_frame(p1) {
                    assert(is_table(self@.entry(p2 as int, j as int)));
                    return false;
                }
            }
            j = j + 1;
        }
        true
    }
}

/// A immutable level-3 page table implements `GenericPageTableImmut`.
pub struct Level3PageTableImmut<VA, PTE: GenericPTE> {
    /// Root table frame.
    pub(crate) root: Frame,
    /// Phantom data.
    pub(crate) _phantom: PhantomData<(VA, PTE)>,
}

impl<VA: VirtAddress, PTE: GenericPTE> Level3PageTableImmut<VA, PTE> {
    /// The frame of the root table.
    pub closed spec fn root_frame(&self) -> Frame {
        self.root
    }

    /// A page table that maps nothing, with a root of its own.
    pub(crate) fn new(mem: &mut PhysMemory<PTE>) -> (r: Self)
        requires
            old(mem).wf(),
            old(mem)@.first_fit(ROOT_FRAMES as int) is Some,
        ensures
            final(mem).wf(),
            old(mem)@.first_fit(ROOT_FRAMES as int) == Some(r.root() as int),
            old(mem)@.free_run(r.root() as int, ROOT_FRAMES as int),
            final(mem)@ == old(mem)@.allocate(r.root() as int, ROOT_FRAMES as int),
            r.root_frame().frame_count == ROOT_FRAMES,
    {
        match Frame::new_16(mem) {
            Ok(root) => Level3PageTableImmut { root, _phantom: PhantomData },
            Err(_) => vstd::pervasive::unreached(),
        }
    }

    /// The place of the entry that decides on `vaddr`: its table, its index, and the size of
    /// the page that it stands for.
    pub(crate) fn find_entry(&self, mem: &PhysMemory<PTE>, vaddr: VA) -> (r: PagingResult<
        (PhysAddr, usize, PageSize),
    >)
        requires
            mem.wf(),
            mem@.way(self.root() as int, vaddr.number() as int),
        ensures
            match (r, mem@.locate(self.root() as int, vaddr.number() as int)) {
                (Ok((table, index, size)), Ok((slot, s))) => {
                    &&& slot == Slot { table: table as int, index: index as int }
                    &&& size == s
                    &&& mem@.tables.contains_key(table as int)
                    &&& index < ENTRY_COUNT
                },
                (Err(a), Err(b)) => a == b,
                _ => false,
            },
    {
        let vaddr: usize = vaddr.into_usize();
        let p3: usize = self.root_paddr();
        let i3: usize = p3_index(vaddr);
        let p3e = mem.entry(p3, i3);
        if p3e.is_huge() {
            return Ok((p3, i3, PageSize::Size1G));
        }
        let p2: usize = match next_table_mut(p3e) {
            Ok(p2) => p2,
            Err(e) => return Err(e),
        };
        assert(mem@.has2(p3 as int, i3 as int));
        let i2: usize = p2_index(vaddr);
        let p2e = mem.entry(p2, i2);
        if p2e.is_huge() {
            return Ok((p2, i2, PageSize::Size2M));
        }
        let p1: usize = match next_table_mut(p2e) {
            Ok(p1) => p1,
            Err(e) => return Err(e),
        };
        assert(mem@.has1(p3 as int, i3 as int, i2 as int));
        let i1: usize = p1_index(vaddr);
        Ok((p1, i1, PageSize::Size4K))
    }

    /// The entry that decides on `vaddr`, to be changed in place, and the size of the page that
    /// it stands for.
    pub(crate) fn get_entry_mut<'a>(&self, mem: &'a mut PhysMemory<PTE>, vaddr: VA) -> (r:
        PagingResult<(&'a mut PTE, PageSize)>)
        requires
            old(mem).wf(),
            old(mem)@.way(self.root() as int, vaddr.number() as int),
        ensures
            match (r, old(mem)@.locate(self.root() as int, vaddr.number() as int)) {
                (Ok((entry, size)), Ok((slot, s))) => {
                    &&& size == s
                    &&& *entry == old(mem)@.at(slot)
                    &&& final(mem)@ == old(mem)@.put(slot, *final(entry))
                },
                (Err(a), Err(b)) => a == b && final(mem)@ == old(mem)@,
                _ => false,
            },
            final(mem).wf(),
    {
        match self.find_entry(mem, vaddr) {
            Ok((table, index, size)) => Ok((mem.entry_mut(table, index), size)),
            Err(e) => Err(e),
        }
    }

    /// Appends what is met in a table and below it, as far as `limit` entries of each table.
    pub(crate) fn walk(
        &self,
        mem: &PhysMemory<PTE>,
        table: PhysAddr,
        level: usize,
        start_vaddr: u64,
        limit: usize,
        met: &mut Vec<WalkItem>,
    )
        requires
            mem.wf(),
            level <= 3,
            walkable_from(mem@, table as int, level as int, limit as int),
        ensures
            final(met)@ == old(met)@ + walk_from(
                mem@,
                table as int,
                level as int,
                start_vaddr as int,
                limit as int,
                0,
                0,
            ),
        decreases 3 - level,
    {
        let ghost all = old(met)@ + walk_from(
            mem@,
            table as int,
            level as int,
            start_vaddr as int,
            limit as int,
            0,
            0,
        );
        let mut n: usize = 0;
        let mut i: usize = 0;
        while i < ENTRY_COUNT
            invariant_except_break
                n <= i <= ENTRY_COUNT,
                n == present_before(mem@, table as int, i as int),
                n == 0 || n < limit,
                all == met@ + walk_from(
                    mem@,
                    table as int,
                    level as int,
                    start_vaddr as int,
                    limit as int,
                    i as int,
                    n as int,
                ),
            invariant
                mem.wf(),
                level <= 3,
                walkable_from(mem@, table as int, level as int, limit as int),
            ensures
                met@ == all,
            decreases ENTRY_COUNT - i,
        {
            let entry = mem.entry(table, i);
            let offset: u64 = walk_offset(i, level);
            let vaddr: u64 = start_vaddr.wrapping_add(offset);
            assert(vaddr == walk_addr(start_vaddr as int, i as int, level as int));
            if entry.is_present() {
                met.push(WalkItem { level, index: i, vaddr, table });
                if level < 2 {
                    match next_table_mut(entry) {
                        Ok(next) => self.walk(mem, next, level + 1, vaddr, limit, met),
                        Err(PagingError::MappedToHugePage) => {},
                        Err(_) => vstd::pervasive::unreached(),
                    }
                }
                n = n + 1;
                if n >= limit {
                    break;
                }
            }
            i = i + 1;
        }
    }

    /// What is met on a walk from the root on, as far as `limit` entries of each table.
    pub fn dump(&self, mem: &PhysMemory<PTE>, limit: usize) -> (r: Vec<WalkItem>)
        requires
            mem.wf(),
            walkable_from(mem@, self.root() as int, 0, limit as int),
        ensures
            r@ == walk_from(mem@, self.root() as int, 0, 0, limit as int, 0, 0),
    {
        let mut met: Vec<WalkItem> = Vec::new();
        self.walk(mem, self.root_paddr(), 0, 0, limit, &mut met);
        met
    }
}

/// How far the address of entry `i` lies behind that of the first entry of its table.
fn walk_offset(i: usize, level: usize) -> (r: u64)
    requires
        i < ENTRY_COUNT,
        level <= 3,
    ensures
        r == i * walk_step(level as int),
{
    let wide: u64 = i as u64;
    assert(wide < 512 ==> wide << 39u64 == wide * 0x80_0000_0000) by (bit_vector);
    assert(wide < 512 ==> wide << 30u64 == wide * 0x4000_0000) by (bit_vector);
    assert(wide < 512 ==> wide << 21u64 == wide * 0x20_0000) by (bit_vector);
    assert(wide < 512 ==> wide << 12u64 == wide * 0x1000) by (bit_vector);
    wide << ((12 + (3 - level) * 9) as u64)
}

/// Where all tables are in memory, so are those that a walk meets, however far it goes.
pub proof fn law_walkable<PTE: GenericPTE>(m: Memory<PTE>, root: int, limit: int)
    requires
        m.walkable(root),
    ensures
        walkable_from(m, root, 0, limit),
{
    assert forall|i: int|
        0 <= i < 512 && walk_reaches(m, root, limit, i) && is_table(
            #[trigger] m.entry(root, i),
        ) implies walkable_from(m, m.entry(root, i).target() as int, 1, limit) by {
        assert(m.has2(root, i));
        let t2 = m.t2(root, i);
        assert forall|j: int|
            0 <= j < 512 && walk_reaches(m, t2, limit, j) && is_table(
                #[trigger] m.entry(t2, j),
            ) implies walkable_from(m, m.entry(t2, j).target() as int, 2, limit) by {
            assert(m.has1(root, i, j));
        }
    }
}

impl<VA: VirtAddress, PTE: GenericPTE> GenericPageTableImmut for Level3PageTableImmut<VA, PTE> {
    type VA = VA;

    type PTE = PTE;

    closed spec fn root(&self) -> PhysAddr {
        self.root.start_paddr
    }

    open spec fn can_query(&self, m: Memory<PTE>, vaddr: int) -> bool {
        &&& m.way(self.root() as int, vaddr)
        &&& m.translate(self.root() as int, vaddr) matches Ok(t) ==> t.0 <= usize::MAX
    }

    open spec fn translation(&self, m: Memory<PTE>, vaddr: int) -> PagingResult<
        (int, MemFlags, PageSize),
    > {
        m.translate(self.root() as int, vaddr)
    }

    fn from_root(root_paddr: PhysAddr) -> (r: Self)
        ensures
            r.root_frame().frame_count == 0,
    {
        Level3PageTableImmut { root: Frame::from_paddr(root_paddr), _phantom: PhantomData }
    }

    fn root_paddr(&self) -> (r: PhysAddr) {
        self.root.start_paddr()
    }

    fn query(&self, mem: &PhysMemory<PTE>, vaddr: VA) -> (r: PagingResult<
        (PhysAddr, MemFlags, PageSize),
    >) {
        proof {
            reveal(Memory::leaf);
        }
        match self.find_entry(mem, vaddr) {
            Err(e) => Err(e),
            Ok((table, index, size)) => {
                let entry = mem.entry(table, index);
                if entry.is_unused() {
                    return Err(PagingError::NotMapped);
                }
                let off: usize = size.page_offset(vaddr.into_usize());
                Ok((entry.addr() + off, entry.flags(), size))
            },
        }
    }
}

/// The root table stands at the start of the root frame.
pub proof fn law_root<VA: VirtAddress, PTE: GenericPTE>(pt: Level3PageTableImmut<VA, PTE>)
    ensures
        pt.root() == pt.root_frame().start_paddr,
{
}

} // verus!
