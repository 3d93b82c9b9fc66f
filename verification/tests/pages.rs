use paging::addr::{is_aligned, VirtAddress, PAGE_SIZE};
use paging::entry::GenericPTE;
use paging::error::{HvError, HvErrorNum, PagingError};
use paging::flags::MemFlags;
use paging::page::{npages, p1_index, p2_index, p3_index, Page, PageSize};
use paging::region::Mapper;
use paging::sv39::Sv39Entry;

#[test]
fn page_sizes_in_bytes() {
    assert_eq!(PageSize::Size4K.bytes(), 4096);
    assert_eq!(PageSize::Size2M.bytes(), 2 * 1024 * 1024);
    assert_eq!(PageSize::Size1G.bytes(), 1024 * 1024 * 1024);
}

#[test]
fn align_down_to_each_size() {
    let addr: usize = 0x1_2345_6789;
    assert_eq!(PageSize::Size4K.align_down(addr), 0x1_2345_6000);
    assert_eq!(PageSize::Size2M.align_down(addr), 0x1_2340_0000);
    assert_eq!(PageSize::Size1G.align_down(addr), 0x1_0000_0000);
    assert_eq!(PageSize::Size1G.align_down(usize::MAX), usize::MAX - 0x3fff_ffff);
}

#[test]
fn offset_in_each_size() {
    let addr: usize = 0x1_2345_6789;
    assert_eq!(PageSize::Size4K.page_offset(addr), 0x789);
    assert_eq!(PageSize::Size2M.page_offset(addr), 0x5_6789);
    assert_eq!(PageSize::Size1G.page_offset(addr), 0x2345_6789);
}

#[test]
fn alignment_of_addresses() {
    assert!(PageSize::Size4K.is_aligned(0));
    assert!(PageSize::Size4K.is_aligned(0x20_1000));
    assert!(!PageSize::Size4K.is_aligned(0x20_1001));
    assert!(PageSize::Size2M.is_aligned(0x60_0000));
    assert!(!PageSize::Size2M.is_aligned(0x60_1000));
    assert!(PageSize::Size1G.is_aligned(0x8000_0000));
    assert!(!PageSize::Size1G.is_aligned(0x8020_0000));
    assert!(is_aligned(3 * PAGE_SIZE));
    assert!(!is_aligned(3 * PAGE_SIZE + 8));
}

#[test]
fn huge_sizes() {
    assert!(!PageSize::Size4K.is_huge());
    assert!(PageSize::Size2M.is_huge());
    assert!(PageSize::Size1G.is_huge());
}

#[test]
fn a_page_keeps_its_parts() {
    let page: Page<usize> = Page::new_aligned(0x60_0000, PageSize::Size2M);
    assert_eq!(page.vaddr, 0x60_0000);
    assert_eq!(page.size, PageSize::Size2M);
}

#[test]
fn indices_of_an_address() {
    let vaddr: usize = (5 << 30) + (511 << 21) + (17 << 12) + 0xabc;
    assert_eq!(p3_index(vaddr), 5);
    assert_eq!(p2_index(vaddr), 511);
    assert_eq!(p1_index(vaddr), 17);
    let high: usize = vaddr + (3 << 39);
    assert_eq!(p3_index(high), 5);
    assert_eq!(p3_index(usize::MAX), 511);
}

#[test]
fn indices_make_up_the_address() {
    for vaddr in [0usize, 0xfff, 0x1000, 0x7f_ffff_ffff, 0x12_3456_789a] {
        let sum = (p3_index(vaddr) << 30) + (p2_index(vaddr) << 21) + (p1_index(vaddr) << 12)
            + PageSize::Size4K.page_offset(vaddr);
        assert_eq!(sum, vaddr);
    }
}

#[test]
fn number_of_pages() {
    assert_eq!(npages(0), 0);
    assert_eq!(npages(1), 1);
    assert_eq!(npages(0x1000), 1);
    assert_eq!(npages(0x1001), 2);
    assert_eq!(npages(0x20_0000), 512);
    assert_eq!(npages(usize::MAX), 1 << 52);
}

#[test]
fn errors_of_the_hypervisor() {
    let err = HvError::from(PagingError::NoMemory);
    assert_eq!(err.num, HvErrorNum::ENOMEM);
    assert_eq!(err.msg, None);
    let cases = [
        (PagingError::NotMapped, "NotMapped"),
        (PagingError::AlreadyMapped, "AlreadyMapped"),
        (PagingError::MappedToHugePage, "MappedToHugePage"),
    ];
    for (err, name) in cases {
        let message = format!("{:?}", err);
        let hv = HvError::from(err);
        assert_eq!(hv.num, HvErrorNum::EFAULT);
        assert_eq!(message, name);
        assert_eq!(hv.msg, Some(message));
    }
}

#[test]
fn flags_are_tested_and_removed() {
    let mut flags = MemFlags { bits: MemFlags::READ | MemFlags::NO_HUGEPAGES };
    assert!(flags.contains(MemFlags::READ));
    assert!(flags.contains(MemFlags::READ | MemFlags::NO_HUGEPAGES));
    assert!(!flags.contains(MemFlags::READ | MemFlags::WRITE));
    flags.remove(MemFlags::NO_HUGEPAGES);
    assert_eq!(flags.bits, MemFlags::READ);
    flags.remove(MemFlags::NO_HUGEPAGES);
    assert_eq!(flags.bits, MemFlags::READ);
}

#[test]
fn mappers() {
    assert_eq!(Mapper::Offset(0x1000).map_fn(0x5000), 0x4000);
    assert_eq!(Mapper::Offset(0x5000).map_fn(0x1000), usize::MAX - 0x3fff);
    assert_eq!(Mapper::Fixed(0x7000).map_fn(0x1000), 0x7000);
}

#[test]
fn addresses_are_numbers() {
    let vaddr: usize = VirtAddress::from_usize(0x1234);
    assert_eq!(vaddr.into_usize(), 0x1234);
}

#[test]
fn sv39_terminal_entry() {
    let mut entry = Sv39Entry { bits: 0 };
    assert!(entry.is_unused());
    assert!(!entry.is_present());
    entry.set_addr(0x8020_0000);
    entry.set_flags(MemFlags { bits: MemFlags::READ | MemFlags::EXECUTE | MemFlags::USER });
    assert_eq!(entry.bits, (0x8_0200 << 10) | 0xdb);
    assert_eq!(entry.addr(), 0x8020_0000);
    assert_eq!(entry.flags().bits, MemFlags::READ | MemFlags::EXECUTE | MemFlags::USER);
    assert!(entry.is_present());
    assert!(entry.is_huge());
    assert!(!entry.is_unused());
    entry.clear();
    assert!(entry.is_unused());
}

#[test]
fn sv39_table_entry() {
    let mut entry = Sv39Entry { bits: 0 };
    entry.set_table(0x8000_4000);
    assert_eq!(entry.bits, (0x8_0004 << 10) | 0x1);
    assert_eq!(entry.addr(), 0x8000_4000);
    assert!(entry.is_present());
    assert!(!entry.is_huge());
}
