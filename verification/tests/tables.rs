use std::sync::atomic::{AtomicUsize, Ordering};

use paging::addr::PhysAddr;
use paging::entry::GenericPTE;
use paging::error::{HvErrorNum, HvResult, PagingError};
use paging::flags::MemFlags;
use paging::instr::PagingInstr;
use paging::level3::{GenericPageTable, Level3PageTable};
use paging::memory::{Frame, PhysMemory, ROOT_FRAMES};
use paging::page::PageSize;
use paging::region::{Mapper, MemoryRegion};
use paging::sv39::Sv39Entry;
use paging::table::{next_table_mut, GenericPageTableImmut, Level3PageTableImmut, WalkItem};

const BASE: usize = 0x8000_0000;

static ACTIVE: AtomicUsize = AtomicUsize::new(0);
static FLUSHED: AtomicUsize = AtomicUsize::new(0);
static FLUSHED_ALL: AtomicUsize = AtomicUsize::new(0);

struct Recorder;

impl PagingInstr for Recorder {
    fn activate(root_paddr: PhysAddr) {
        ACTIVE.store(root_paddr, Ordering::SeqCst);
    }

    fn flush(vaddr: Option<usize>) {
        match vaddr {
            Some(vaddr) => FLUSHED.store(vaddr, Ordering::SeqCst),
            None => {
                FLUSHED_ALL.fetch_add(1, Ordering::SeqCst);
            }
        }
    }
}

type Table = Level3PageTable<usize, Sv39Entry, Recorder>;
type ReadOnly = Level3PageTableImmut<usize, Sv39Entry>;

fn memory_at(base: usize, frames: usize) -> PhysMemory<Sv39Entry> {
    PhysMemory::new(base, vec![Sv39Entry { bits: 0xffff }; frames * 512])
}

fn memory(frames: usize) -> PhysMemory<Sv39Entry> {
    memory_at(BASE, frames)
}

fn flags(bits: u64) -> MemFlags {
    MemFlags { bits }
}

fn rw() -> MemFlags {
    flags(MemFlags::READ | MemFlags::WRITE)
}

/// A region whose pages go to consecutive frames from `paddr` on.
fn region(start: usize, paddr: usize, size: usize, flags: MemFlags) -> MemoryRegion<usize> {
    MemoryRegion { start, size, flags, mapper: Mapper::Offset(start.wrapping_sub(paddr)) }
}

fn fault(r: HvResult) -> String {
    match r {
        Ok(_) => panic!("no error"),
        Err(err) => {
            assert_eq!(err.num, HvErrorNum::EFAULT);
            err.msg.unwrap()
        }
    }
}

fn same_item(item: &WalkItem, level: usize, index: usize, vaddr: u64, table: usize) -> bool {
    item.level == level && item.index == index && item.vaddr == vaddr && item.table == table
}

#[test]
fn a_new_table_maps_nothing() {
    let mut mem = memory(8);
    let pt = Table::new(&mut mem);
    assert_eq!(pt.root_paddr(), BASE);
    for vaddr in [0usize, 0x1000, 0x4000_0000, 0x7f_ffff_f000, usize::MAX] {
        assert_eq!(pt.query(&mem, vaddr), Err(PagingError::NotMapped));
    }
    assert!(pt.dump(&mem, 512).is_empty());
}

#[test]
fn a_root_is_aligned_and_cleared() {
    let mut mem = memory_at(BASE + 0x1000, 8);
    assert!(mem.has_root_frame());
    let pt = Table::new(&mut mem);
    assert_eq!(pt.root_paddr(), BASE + 0x4000);
    for index in 0..512 {
        assert!(mem.entry(pt.root_paddr(), index).is_unused());
    }
    assert!(!mem.has_root_frame());
    assert_eq!(mem.entry(BASE + 0x1000, 0).bits, 0xffff);
}

#[test]
fn frames_are_taken_first_fit() {
    let mut mem = memory(7);
    let single = Frame::new_zero(&mut mem).unwrap();
    assert_eq!(single.start_paddr(), BASE);
    assert_eq!(single.frame_count, 1);
    assert!(!mem.has_root_frame());
    let err = Frame::new_16(&mut mem).unwrap_err();
    assert_eq!(err.num, HvErrorNum::ENOMEM);
    assert_eq!(err.msg, None);
    for k in 1..7 {
        assert_eq!(Frame::new_zero(&mut mem).unwrap().start_paddr(), BASE + k * 0x1000);
    }
    assert_eq!(Frame::new_zero(&mut mem).unwrap_err().num, HvErrorNum::ENOMEM);
    let found = Frame::from_paddr(BASE + 0x2000);
    assert_eq!(found.start_paddr(), BASE + 0x2000);
    assert_eq!(found.frame_count, 0);
}

#[test]
fn a_root_takes_its_frames_together() {
    let mut mem = memory(8);
    let root = Frame::new_16(&mut mem).unwrap();
    assert_eq!(root.start_paddr(), BASE);
    assert_eq!(root.frame_count, ROOT_FRAMES);
    assert_eq!(Frame::new_zero(&mut mem).unwrap().start_paddr(), BASE + 0x4000);
}

#[test]
fn entries_are_changed_in_place() {
    let mut mem = memory(2);
    mem.entry_mut(BASE + 0x1000, 511).clear();
    assert!(mem.entry(BASE + 0x1000, 511).is_unused());
    assert_eq!(mem.entry(BASE + 0x1000, 510).bits, 0xffff);
    assert_eq!(mem.entry(BASE, 511).bits, 0xffff);
    assert!(mem.has_frame(BASE + 0x1000));
    assert!(!mem.has_frame(BASE + 0x1008));
    assert!(!mem.has_frame(BASE + 0x2000));
    assert!(!mem.has_frame(BASE - 0x1000));
}

#[test]
fn the_table_behind_an_entry() {
    let mut entry = Sv39Entry { bits: 0 };
    assert_eq!(next_table_mut(&entry), Err(PagingError::NotMapped));
    entry.set_table(BASE);
    assert_eq!(next_table_mut(&entry), Ok(BASE));
    entry.set_flags(rw());
    assert_eq!(next_table_mut(&entry), Err(PagingError::MappedToHugePage));
}

#[test]
fn a_small_page_is_mapped() {
    let mut mem = memory(8);
    let mut pt = Table::new(&mut mem);
    let r = region(0x4020_1000, 0x9000_0000, 0x1000, rw());
    assert!(pt.map(&mut mem, &r).is_ok());
    assert_eq!(pt.query(&mem, 0x4020_1000), Ok((0x9000_0000, rw(), PageSize::Size4K)));
    assert_eq!(pt.query(&mem, 0x4020_1fff), Ok((0x9000_0fff, rw(), PageSize::Size4K)));
    assert_eq!(pt.query(&mem, 0x4020_0fff), Err(PagingError::NotMapped));
    assert_eq!(pt.query(&mem, 0x4020_2000), Err(PagingError::NotMapped));
    // Two tables were made, behind the root.
    assert_eq!(mem.entry(BASE, 1).addr(), BASE + 0x4000);
    assert_eq!(mem.entry(BASE + 0x4000, 1).addr(), BASE + 0x5000);
    assert_eq!(mem.entry(BASE + 0x5000, 1).addr(), 0x9000_0000);
    assert_eq!(Frame::new_zero(&mut mem).unwrap().start_paddr(), BASE + 0x6000);
}

#[test]
fn addresses_repeat_behind_the_reach() {
    let mut mem = memory(8);
    let mut pt = Table::new(&mut mem);
    assert!(pt.map(&mut mem, &region(0x3000, 0x9000_0000, 0x1000, rw())).is_ok());
    assert_eq!(
        pt.query(&mem, 0x3010 + (7 << 39)),
        Ok((0x9000_0010, rw(), PageSize::Size4K))
    );
}

#[test]
fn an_empty_region_changes_nothing() {
    let mut mem = memory(8);
    let mut pt = Table::new(&mut mem);
    assert!(pt.map(&mut mem, &region(0x3000, 0x9000_0000, 0, rw())).is_ok());
    assert!(pt.unmap(&mut mem, &region(0x3000, 0x9000_0000, 0, rw())).is_ok());
    assert!(pt.dump(&mem, 512).is_empty());
}

#[test]
fn the_largest_page_that_fits_is_used() {
    let mut mem = memory(16);
    let mut pt = Table::new(&mut mem);
    // 1 GiB, then 2 MiB, then 4 KiB.
    let r = region(0x4000_0000, 0x1_0000_0000, 0x4000_0000 + 0x20_0000 + 0x1000, rw());
    assert!(pt.map(&mut mem, &r).is_ok());
    assert_eq!(
        pt.query(&mem, 0x7fff_ffff),
        Ok((0x1_3fff_ffff, rw(), PageSize::Size1G))
    );
    assert_eq!(
        pt.query(&mem, 0x8012_3456),
        Ok((0x1_4012_3456, rw(), PageSize::Size2M))
    );
    assert_eq!(
        pt.query(&mem, 0x8020_0042),
        Ok((0x1_4020_0042, rw(), PageSize::Size4K))
    );
    assert_eq!(pt.query(&mem, 0x8020_1000), Err(PagingError::NotMapped));
}

#[test]
fn a_huge_page_is_used_in_the_middle_of_a_region() {
    let mut mem = memory(16);
    let mut pt = Table::new(&mut mem);
    let r = region(0x1f_f000, 0x5f_f000, 0x20_2000, rw());
    assert!(pt.map(&mut mem, &r).is_ok());
    assert_eq!(pt.query(&mem, 0x1f_f001), Ok((0x5f_f001, rw(), PageSize::Size4K)));
    assert_eq!(pt.query(&mem, 0x20_0000), Ok((0x60_0000, rw(), PageSize::Size2M)));
    assert_eq!(pt.query(&mem, 0x3f_ffff), Ok((0x7f_ffff, rw(), PageSize::Size2M)));
    assert_eq!(pt.query(&mem, 0x40_0000), Ok((0x80_0000, rw(), PageSize::Size4K)));
    assert_eq!(pt.query(&mem, 0x40_1000), Err(PagingError::NotMapped));
}

#[test]
fn pages_are_no_larger_than_their_frames_allow() {
    let mut mem = memory(16);
    let mut pt = Table::new(&mut mem);
    let r = region(0x4000_0000, 0x1_0000_1000, 0x20_0000, rw());
    assert!(pt.map(&mut mem, &r).is_ok());
    assert_eq!(
        pt.query(&mem, 0x401f_f008),
        Ok((0x1_0020_0008, rw(), PageSize::Size4K))
    );
}

#[test]
fn huge_pages_can_be_ruled_out() {
    let mut mem = memory(16);
    let mut pt = Table::new(&mut mem);
    let small = flags(MemFlags::READ | MemFlags::NO_HUGEPAGES);
    assert!(pt.map(&mut mem, &region(0x20_0000, 0x40_0000, 0x20_0000, small)).is_ok());
    for page in 0..512 {
        assert_eq!(
            pt.query(&mem, 0x20_0000 + page * 0x1000),
            Ok((0x40_0000 + page * 0x1000, flags(MemFlags::READ), PageSize::Size4K))
        );
    }
}

#[test]
fn every_page_to_one_frame() {
    let mut mem = memory(16);
    let mut pt = Table::new(&mut mem);
    let r = MemoryRegion {
        start: 0x1000,
        size: 0x3000,
        flags: rw(),
        mapper: Mapper::Fixed(0x9000_1000),
    };
    assert!(pt.map(&mut mem, &r).is_ok());
    assert_eq!(pt.query(&mem, 0x1004), Ok((0x9000_1004, rw(), PageSize::Size4K)));
    assert_eq!(pt.query(&mem, 0x3008), Ok((0x9000_1008, rw(), PageSize::Size4K)));
}

#[test]
fn a_frame_address_is_rounded_down() {
    let mut mem = memory(16);
    let mut pt = Table::new(&mut mem);
    let r = MemoryRegion {
        start: 0x1000,
        size: 0x1000,
        flags: rw(),
        mapper: Mapper::Fixed(0x9000_1abc),
    };
    assert!(pt.map(&mut mem, &r).is_ok());
    assert_eq!(pt.query(&mem, 0x1004), Ok((0x9000_1004, rw(), PageSize::Size4K)));
}

#[test]
fn pages_without_rights_can_be_mapped_small() {
    let mut mem = memory(16);
    let mut pt = Table::new(&mut mem);
    assert!(pt.map(&mut mem, &region(0x5000, 0x9000_0000, 0x1000, flags(0))).is_ok());
    assert_eq!(pt.query(&mem, 0x5000), Ok((0x9000_0000, flags(0), PageSize::Size4K)));
}

#[test]
fn a_page_is_not_mapped_twice() {
    let mut mem = memory(16);
    let mut pt = Table::new(&mut mem);
    assert!(pt.map(&mut mem, &region(0x3000, 0x9000_0000, 0x1000, rw())).is_ok());
    // The first two pages of the region are mapped before the third fails.
    let again = region(0x1000, 0xa000_0000, 0x4000, rw());
    assert_eq!(fault(pt.map(&mut mem, &again)), "AlreadyMapped");
    assert_eq!(pt.query(&mem, 0x1000), Ok((0xa000_0000, rw(), PageSize::Size4K)));
    assert_eq!(pt.query(&mem, 0x2000), Ok((0xa000_1000, rw(), PageSize::Size4K)));
    assert_eq!(pt.query(&mem, 0x3000), Ok((0x9000_0000, rw(), PageSize::Size4K)));
    assert_eq!(pt.query(&mem, 0x4000), Err(PagingError::NotMapped));
}

#[test]
fn a_table_is_not_replaced_by_a_huge_page() {
    let mut mem = memory(16);
    let mut pt = Table::new(&mut mem);
    assert!(pt.map(&mut mem, &region(0x20_3000, 0x9000_0000, 0x1000, rw())).is_ok());
    let huge = region(0x20_0000, 0xa000_0000, 0x20_0000, rw());
    assert_eq!(fault(pt.map(&mut mem, &huge)), "AlreadyMapped");
    assert_eq!(pt.query(&mem, 0x20_3000), Ok((0x9000_0000, rw(), PageSize::Size4K)));
}

#[test]
fn an_empty_table_keeps_its_place() {
    let mut mem = memory(16);
    let mut pt = Table::new(&mut mem);
    let small = region(0x20_3000, 0x9000_0000, 0x1000, rw());
    assert!(pt.map(&mut mem, &small).is_ok());
    assert!(pt.unmap(&mut mem, &small).is_ok());
    let huge = region(0x20_0000, 0xa000_0000, 0x20_0000, rw());
    assert_eq!(fault(pt.map(&mut mem, &huge)), "AlreadyMapped");
    let pages = region(0x20_0000, 0xa000_0000, 0x1f_f000, rw());
    assert!(pt.map(&mut mem, &pages).is_ok());
    assert_eq!(pt.query(&mem, 0x20_3004), Ok((0xa000_3004, rw(), PageSize::Size4K)));
}

#[test]
fn a_large_region_fills_a_new_table() {
    let mut mem = memory(8);
    let mut pt = Table::new(&mut mem);
    assert!(pt.map(&mut mem, &region(0, 0, 1 << 39, rw())).is_ok());
    assert_eq!(
        pt.query(&mem, 0x7f_ffff_ffff),
        Ok((0x7f_ffff_ffff, rw(), PageSize::Size1G))
    );
    // One page more would meet the first one again.
    let more = region(1 << 39, 0, 0x1000, rw());
    assert_eq!(fault(pt.map(&mut mem, &more)), "MappedToHugePage");
}

#[test]
fn a_huge_page_has_no_tables_below() {
    let mut mem = memory(16);
    let mut pt = Table::new(&mut mem);
    assert!(pt.map(&mut mem, &region(0x20_0000, 0x40_0000, 0x20_0000, rw())).is_ok());
    let inside = region(0x20_1000, 0x9000_0000, 0x1000, rw());
    assert_eq!(fault(pt.map(&mut mem, &inside)), "MappedToHugePage");
    assert_eq!(
        pt.query(&mem, 0x20_1000),
        Ok((0x40_1000, rw(), PageSize::Size2M))
    );
}

#[test]
fn running_out_of_memory() {
    let mut mem = memory(5);
    let mut pt = Table::new(&mut mem);
    let err = pt.map(&mut mem, &region(0x1000, 0x9000_0000, 0x1000, rw())).unwrap_err();
    assert_eq!(err.num, HvErrorNum::ENOMEM);
    assert_eq!(err.msg, None);
    assert_eq!(pt.query(&mem, 0x1000), Err(PagingError::NotMapped));
    // The middle table was made, so that a huge page needs no more memory.
    assert!(pt.map(&mut mem, &region(0x20_0000, 0x40_0000, 0x20_0000, rw())).is_ok());
    let err = pt.map(&mut mem, &region(0x4000_1000, 0x9000_0000, 0x1000, rw())).unwrap_err();
    assert_eq!(err.num, HvErrorNum::ENOMEM);
}

#[test]
fn unmapping_undoes_mapping() {
    let mut mem = memory(16);
    let mut pt = Table::new(&mut mem);
    let other = region(0x8000_0000, 0x9000_0000, 0x1000, rw());
    assert!(pt.map(&mut mem, &other).is_ok());
    let r = region(0x4000_0000, 0x1_0000_0000, 0x4000_0000, rw());
    let tail = region(0x8020_0000, 0x2_0020_0000, 0x20_0000 + 0x2000, rw());
    assert!(pt.map(&mut mem, &r).is_ok());
    assert!(pt.map(&mut mem, &tail).is_ok());
    assert!(pt.unmap(&mut mem, &r).is_ok());
    assert!(pt.unmap(&mut mem, &tail).is_ok());
    for vaddr in [0x4000_0000usize, 0x7fff_f000, 0x8020_0000, 0x8040_0000, 0x8040_1000] {
        assert_eq!(pt.query(&mem, vaddr), Err(PagingError::NotMapped));
    }
    assert_eq!(pt.query(&mem, 0x8000_0000), Ok((0x9000_0000, rw(), PageSize::Size4K)));
    // The region can be mapped again.
    assert!(pt.map(&mut mem, &r).is_ok());
    assert_eq!(
        pt.query(&mem, 0x4000_0001),
        Ok((0x1_0000_0001, rw(), PageSize::Size1G))
    );
}

#[test]
fn unmapping_stops_where_nothing_is_mapped() {
    let mut mem = memory(16);
    let mut pt = Table::new(&mut mem);
    assert_eq!(
        fault(pt.unmap(&mut mem, &region(0x1000, 0, 0x1000, rw()))),
        "NotMapped"
    );
    assert!(pt.map(&mut mem, &region(0x1000, 0x9000_0000, 0x1000, rw())).is_ok());
    assert!(pt.map(&mut mem, &region(0x3000, 0x9000_2000, 0x1000, rw())).is_ok());
    assert_eq!(
        fault(pt.unmap(&mut mem, &region(0x1000, 0, 0x3000, rw()))),
        "NotMapped"
    );
    assert_eq!(pt.query(&mem, 0x1000), Err(PagingError::NotMapped));
    assert_eq!(pt.query(&mem, 0x3000), Ok((0x9000_2000, rw(), PageSize::Size4K)));
}

#[test]
fn a_mapping_is_updated() {
    let mut mem = memory(16);
    let mut pt = Table::new(&mut mem);
    assert!(pt.map(&mut mem, &region(0x1000, 0x9000_0000, 0x2000, rw())).is_ok());
    let read = flags(MemFlags::READ);
    assert_eq!(pt.update(&mut mem, 0x1008, 0xb000_0000, read), Ok(PageSize::Size4K));
    assert_eq!(pt.query(&mem, 0x1ff0), Ok((0xb000_0ff0, read, PageSize::Size4K)));
    assert_eq!(pt.query(&mem, 0x2000), Ok((0x9000_1000, rw(), PageSize::Size4K)));
    // An unused entry of a table that is there is updated too.
    assert_eq!(pt.update(&mut mem, 0x7000, 0xb000_7000, read), Ok(PageSize::Size4K));
    assert_eq!(pt.query(&mem, 0x7001), Ok((0xb000_7001, read, PageSize::Size4K)));
    assert_eq!(
        pt.update(&mut mem, 0x4000_0000, 0xb000_0000, read),
        Err(PagingError::NotMapped)
    );
}

#[test]
fn a_huge_mapping_is_updated() {
    let mut mem = memory(16);
    let mut pt = Table::new(&mut mem);
    assert!(pt.map(&mut mem, &region(0x4000_0000, 0x8000_0000, 0x4000_0000, rw())).is_ok());
    let read = flags(MemFlags::READ);
    assert_eq!(pt.update(&mut mem, 0x4012_3456, 0x1_0000_0000, read), Ok(PageSize::Size1G));
    assert_eq!(
        pt.query(&mem, 0x5234_5678),
        Ok((0x1_1234_5678, read, PageSize::Size1G))
    );
}

#[test]
fn a_clone_shares_what_lies_below_the_root() {
    let mut mem = memory(24);
    let mut pt = Table::new(&mut mem);
    assert!(pt.map(&mut mem, &region(0x1000, 0x9000_0000, 0x1000, rw())).is_ok());
    let mut copy = pt.clone(&mut mem);
    assert_ne!(copy.root_paddr(), pt.root_paddr());
    assert_eq!(copy.root_paddr() % 0x4000, 0);
    assert_eq!(copy.query(&mem, 0x1000), Ok((0x9000_0000, rw(), PageSize::Size4K)));
    // Changes below an entry that both roots hold show in both.
    assert!(pt.map(&mut mem, &region(0x5000, 0xa000_0000, 0x1000, rw())).is_ok());
    assert_eq!(copy.query(&mem, 0x5000), Ok((0xa000_0000, rw(), PageSize::Size4K)));
    assert!(copy.unmap(&mut mem, &region(0x1000, 0, 0x1000, rw())).is_ok());
    assert_eq!(pt.query(&mem, 0x1000), Err(PagingError::NotMapped));
    assert_eq!(copy.update(&mut mem, 0x5000, 0xc000_0000, rw()), Ok(PageSize::Size4K));
    assert_eq!(pt.query(&mem, 0x5000), Ok((0xc000_0000, rw(), PageSize::Size4K)));
    // A new root entry shows in one only.
    assert!(pt.map(&mut mem, &region(0x4000_0000, 0x9000_0000, 0x1000, rw())).is_ok());
    assert_eq!(copy.query(&mem, 0x4000_0000), Err(PagingError::NotMapped));
}

#[test]
fn a_family_of_clones_stays_together() {
    let mut mem = memory(32);
    let mut pt = Table::new(&mut mem);
    assert!(pt.map(&mut mem, &region(0x1000, 0x9000_0000, 0x1000, rw())).is_ok());
    let mut first = pt.clone(&mut mem);
    let mut second = first.clone(&mut mem);
    assert!(second.map(&mut mem, &region(0x20_0000, 0xa000_0000, 0x3000, rw())).is_ok());
    for table in [&pt, &first, &second] {
        assert_eq!(table.query(&mem, 0x20_2008), Ok((0xa000_2008, rw(), PageSize::Size4K)));
        assert!(mem.holds_tables(table.root_paddr()));
    }
    // What a root has of its own stays its own.
    assert!(first.map(&mut mem, &region(0x4000_0000, 0xb000_0000, 0x1000, rw())).is_ok());
    assert!(second.map(&mut mem, &region(0x4000_0000, 0xc000_0000, 0x1000, rw())).is_ok());
    assert_eq!(pt.query(&mem, 0x4000_0000), Err(PagingError::NotMapped));
    assert_eq!(first.query(&mem, 0x4000_0000), Ok((0xb000_0000, rw(), PageSize::Size4K)));
    assert_eq!(second.query(&mem, 0x4000_0000), Ok((0xc000_0000, rw(), PageSize::Size4K)));
}

#[test]
fn a_root_is_cloned_from_a_read_only_table() {
    let mut mem = memory(24);
    let mut pt = Table::new(&mut mem);
    assert!(pt.map(&mut mem, &region(0x4000_0000, 0x8000_0000, 0x4000_0000, rw())).is_ok());
    let view = ReadOnly::from_root(pt.root_paddr());
    let copy = Table::clone_from(&mut mem, &view);
    assert_eq!(
        copy.query(&mem, 0x4000_1234),
        Ok((0x8000_1234, rw(), PageSize::Size1G))
    );
    for index in 0..512 {
        assert_eq!(
            mem.entry(copy.root_paddr(), index).bits,
            mem.entry(pt.root_paddr(), index).bits
        );
    }
}

#[test]
fn tables_apart_do_not_disturb_each_other() {
    let mut mem = memory(24);
    let mut a = Table::new(&mut mem);
    let mut b = Table::new(&mut mem);
    assert!(a.map(&mut mem, &region(0x1000, 0x9000_0000, 0x1000, rw())).is_ok());
    assert!(b.map(&mut mem, &region(0x1000, 0xa000_0000, 0x1000, rw())).is_ok());
    assert!(a.unmap(&mut mem, &region(0x1000, 0, 0x1000, rw())).is_ok());
    assert_eq!(a.query(&mem, 0x1000), Err(PagingError::NotMapped));
    assert_eq!(b.query(&mem, 0x1000), Ok((0xa000_0000, rw(), PageSize::Size4K)));
}

#[test]
fn a_table_is_found_by_its_root() {
    let mut mem = memory(16);
    let mut pt = Table::new(&mut mem);
    assert!(pt.map(&mut mem, &region(0x1000, 0x9000_0000, 0x1000, rw())).is_ok());
    let view = ReadOnly::from_root(pt.root_paddr());
    assert_eq!(view.root_paddr(), pt.root_paddr());
    assert_eq!(view.query(&mem, 0x1fff), Ok((0x9000_0fff, rw(), PageSize::Size4K)));
    assert_eq!(view.query(&mem, 0x2000), Err(PagingError::NotMapped));
    let mut same = Table::from_root(pt.root_paddr());
    assert!(same.map(&mut mem, &region(0x2000, 0x9000_1000, 0x1000, rw())).is_ok());
    assert_eq!(pt.query(&mem, 0x2000), Ok((0x9000_1000, rw(), PageSize::Size4K)));
}

/// Memory that holds a root, a middle and a last table, in its first three frames, and maps one
/// page at 0x1000.
fn memory_with_tables(frames: usize) -> PhysMemory<Sv39Entry> {
    let mut entries = vec![Sv39Entry { bits: 0 }; frames * 512];
    entries[0].set_table(BASE + 0x1000);
    entries[512].set_table(BASE + 0x2000);
    entries[1024 + 1].set_addr(0x9000_0000);
    entries[1024 + 1].set_flags(rw());
    PhysMemory::new(BASE, entries)
}

#[test]
fn tables_that_were_there_before_are_changed_and_cloned() {
    let mut mem = memory_with_tables(16);
    mem.reserve(BASE);
    mem.reserve(BASE + 0x1000);
    mem.reserve(BASE + 0x2000);
    let mut pt = Table::from_root(BASE);
    assert_eq!(pt.query(&mem, 0x1008), Ok((0x9000_0008, rw(), PageSize::Size4K)));
    assert!(pt.map(&mut mem, &region(0x20_0000, 0xa000_0000, 0x1000, rw())).is_ok());
    // The new table was made behind those that were there.
    assert_eq!(mem.entry(BASE + 0x1000, 1).addr(), BASE + 0x3000);
    assert_eq!(pt.query(&mem, 0x1008), Ok((0x9000_0008, rw(), PageSize::Size4K)));
    assert_eq!(pt.query(&mem, 0x20_0000), Ok((0xa000_0000, rw(), PageSize::Size4K)));
    let copy = Table::clone_from(&mut mem, &pt);
    assert_eq!(copy.root_paddr(), BASE + 0x4000);
    assert_eq!(copy.query(&mem, 0x1008), Ok((0x9000_0008, rw(), PageSize::Size4K)));
    assert!(pt.unmap(&mut mem, &region(0x1000, 0, 0x1000, rw())).is_ok());
    assert_eq!(copy.query(&mem, 0x1008), Err(PagingError::NotMapped));
}

#[test]
fn only_the_way_to_an_address_matters() {
    let mut mem = memory_with_tables(4);
    mem.entry_mut(BASE, 7).set_table(0xf000_0000);
    mem.entry_mut(BASE + 0x1000, 7).set_table(0xf000_0000);
    assert!(!mem.holds_tables(BASE));
    let view = ReadOnly::from_root(BASE);
    assert_eq!(view.query(&mem, 0x1008), Ok((0x9000_0008, rw(), PageSize::Size4K)));
    assert_eq!(view.query(&mem, 0x4000_0000), Err(PagingError::NotMapped));
    assert_eq!(view.dump(&mem, 1).len(), 3);
}

#[test]
fn a_walk_meets_each_entry_before_what_lies_behind_it() {
    let mut mem = memory(16);
    let mut pt = Table::new(&mut mem);
    assert!(pt.map(&mut mem, &region(0x4020_1000, 0x9000_0000, 0x2000, rw())).is_ok());
    assert!(pt.map(&mut mem, &region(0x8000_0000, 0x8000_0000, 0x4000_0000, rw())).is_ok());
    let met = pt.dump(&mem, 512);
    let first: u64 = 1 << 39;
    let second: u64 = first + (1 << 30);
    assert_eq!(met.len(), 5);
    assert!(same_item(&met[0], 0, 1, first, BASE));
    assert!(same_item(&met[1], 1, 1, second, BASE + 0x4000));
    assert!(same_item(&met[2], 2, 1, second + (1 << 21), BASE + 0x5000));
    assert!(same_item(&met[3], 2, 2, second + (2 << 21), BASE + 0x5000));
    assert!(same_item(&met[4], 0, 2, 2 << 39, BASE));
}

#[test]
fn a_walk_is_limited_in_each_table() {
    let mut mem = memory(16);
    let mut pt = Table::new(&mut mem);
    assert!(pt.map(&mut mem, &region(0x1000, 0x9000_0000, 0x3000, rw())).is_ok());
    assert!(pt.map(&mut mem, &region(0x4000_0000, 0x8000_0000, 0x4000_0000, rw())).is_ok());
    let met = pt.dump(&mem, 2);
    assert_eq!(met.len(), 5);
    assert!(same_item(&met[2], 2, 1, 1 << 21, BASE + 0x5000));
    assert!(same_item(&met[3], 2, 2, 2 << 21, BASE + 0x5000));
    assert!(same_item(&met[4], 0, 1, 1 << 39, BASE));
    // One entry of each table is met even without any limit left.
    assert_eq!(pt.dump(&mem, 1).len(), 3);
    assert_eq!(pt.dump(&mem, 0).len(), 3);
    let view = ReadOnly::from_root(pt.root_paddr());
    assert_eq!(view.dump(&mem, 512).len(), 6);
}

#[test]
fn tables_in_memory_are_recognised() {
    let mut mem = memory(16);
    let mut pt = Table::new(&mut mem);
    let root = pt.root_paddr();
    assert!(mem.holds_tables(root));
    assert!(pt.map(&mut mem, &region(0x1000, 0x9000_0000, 0x1000, rw())).is_ok());
    assert!(mem.holds_tables(root));
    assert!(!mem.holds_tables(root + 8));
    assert!(!mem.holds_tables(0x9000_0000));
    mem.entry_mut(BASE + 0x4000, 7).set_table(0x9000_0000);
    assert!(!mem.holds_tables(root));
    mem.entry_mut(BASE + 0x4000, 7).clear();
    mem.entry_mut(root, 511).set_table(BASE + 0x10_0000);
    assert!(!mem.holds_tables(root));
}

#[test]
fn the_machine_is_told() {
    let mut mem = memory(16);
    let pt = Table::new(&mut mem);
    pt.activate();
    assert_eq!(ACTIVE.load(Ordering::SeqCst), pt.root_paddr());
    pt.flush(Some(0x1234_5000));
    assert_eq!(FLUSHED.load(Ordering::SeqCst), 0x1234_5000);
    assert_eq!(FLUSHED_ALL.load(Ordering::SeqCst), 0);
    pt.flush(None);
    assert_eq!(FLUSHED_ALL.load(Ordering::SeqCst), 1);
    assert_eq!(FLUSHED.load(Ordering::SeqCst), 0x1234_5000);
}
