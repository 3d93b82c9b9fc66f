//! Spans of addresses, and the pages that a region is mapped by.
use vstd::prelude::*;

use crate::addr::PAGE_SIZE;
use crate::change::{huge_fits, page_size_for, page_start};
use crate::flags::MemFlags;
use crate::laws::lemma_page_fits;
use crate::lemmas::lemma_offset_kept;
use crate::model::{reach, same_page};
use crate::page::PageSize;
use crate::region::Mapper;

verus! {

/// The address lies between `start` and `stop`, as far as tables of three levels can tell.
pub open spec fn in_span(vaddr: int, start: int, stop: int) -> bool {
    (vaddr - start) % reach() < stop - start
}

/// A huge page of this size round `va` can be part of a region of `left` bytes from `vaddr` on: it
/// lies in the region, its start is mapped to where a page of this size can start, and the region
/// does not rule huge pages out.
pub open spec fn huge_page_fits(
    size: PageSize,
    vaddr: int,
    left: int,
    flags: MemFlags,
    mapper: Mapper,
    va: int,
) -> bool {
    let first = va - va % size.bytes() as int;
    &&& vaddr <= first
    &&& first + size.bytes() <= vaddr + left
    &&& mapper.map_fn(first as usize) % size.bytes() == 0
    &&& !flags.contains(MemFlags::NO_HUGEPAGES)
}

/// The size of the page by which `va` is mapped as part of a region of `left` bytes from `vaddr`
/// on: the largest that fits.
pub open spec fn region_page(
    vaddr: int,
    left: int,
    flags: MemFlags,
    mapper: Mapper,
    va: int,
) -> PageSize {
    if huge_page_fits(PageSize::Size1G, vaddr, left, flags, mapper, va) {
        PageSize::Size1G
    } else if huge_page_fits(PageSize::Size2M, vaddr, left, flags, mapper, va) {
        PageSize::Size2M
    } else {
        PageSize::Size4K
    }
}

/// A page is the span from its start to its end.
pub(crate) proof fn lemma_page_span(va: int, vaddr: int, size: PageSize)
    requires
        0 <= va,
        0 <= vaddr,
        vaddr % size.bytes() as int == 0,
    ensures
        same_page(va, vaddr, size) <==> in_span(va, vaddr, vaddr + size.bytes()),
        vaddr <= va < vaddr + size.bytes() ==> va - va % size.bytes() as int == vaddr,
{
    let a = va % reach();
    let b = vaddr % reach();
    lemma_mod_difference(va, vaddr);
    lemma_offset_kept(vaddr, size);
    match size {
        PageSize::Size4K => {
            assert(b % 0x1000 == 0);
            assert(a / 0x1000 == b / 0x1000 <==> b <= a < b + 0x1000);
        },
        PageSize::Size2M => {
            assert(b % 0x20_0000 == 0);
            assert(a / 0x20_0000 == b / 0x20_0000 <==> b <= a < b + 0x20_0000);
        },
        PageSize::Size1G => {
            assert(b % 0x4000_0000 == 0);
            assert(a / 0x4000_0000 == b / 0x4000_0000 <==> b <= a < b + 0x4000_0000);
        },
    }
}

proof fn lemma_mod_difference(a: int, b: int)
    ensures
        (a - b) % reach() == if a % reach() >= b % reach() {
            a % reach() - b % reach()
        } else {
            a % reach() - b % reach() + reach()
        },
{
}

/// A span is made of the spans before and behind an address in it.
pub(crate) proof fn lemma_span_split(va: int, start: int, middle: int, stop: int)
    requires
        start <= middle <= stop,
        middle - start < reach(),
    ensures
        in_span(va, start, stop) <==> in_span(va, start, middle) || in_span(va, middle, stop),
{
}

/// A multiple of a page size is one of each smaller size.
pub(crate) proof fn lemma_smaller_unit(p: int, size: PageSize, smaller: PageSize)
    requires
        p % size.bytes() as int == 0,
        smaller.bytes() <= size.bytes(),
    ensures
        p % smaller.bytes() as int == 0,
{
    match (size, smaller) {
        (PageSize::Size1G, PageSize::Size2M) => {
            assert(p == (p / 0x4000_0000) * 512 * 0x20_0000);
        },
        (PageSize::Size1G, PageSize::Size4K) => {
            assert(p == (p / 0x4000_0000) * 0x4_0000 * 0x1000);
        },
        (PageSize::Size2M, PageSize::Size4K) => {
            assert(p == (p / 0x20_0000) * 512 * 0x1000);
        },
        _ => {},
    }
}

/// Between a multiple of a page size and the next there is none.
proof fn lemma_no_multiple_between(p: int, q: int, size: PageSize)
    requires
        p % size.bytes() as int == 0,
        q % size.bytes() as int == 0,
        p <= q < p + size.bytes(),
    ensures
        q == p,
{
    match size {
        PageSize::Size4K => {
            assert((q - p) % 0x1000 == 0);
        },
        PageSize::Size2M => {
            assert((q - p) % 0x20_0000 == 0);
        },
        PageSize::Size1G => {
            assert((q - p) % 0x4000_0000 == 0);
        },
    }
}

/// A page that can be part of a region and begins before the end of its first page is no larger
/// than that: the first page would have been as large.
proof fn lemma_first_is_largest(
    size: PageSize,
    vaddr: usize,
    left: usize,
    flags: MemFlags,
    mapper: Mapper,
    va: int,
)
    requires
        vaddr % PAGE_SIZE == 0,
        left % PAGE_SIZE == 0,
        0 < left,
        vaddr + left <= usize::MAX,
        0 <= va,
        huge_page_fits(size, vaddr as int, left as int, flags, mapper, va),
        vaddr + page_size_for(vaddr, mapper.map_fn(vaddr), left as int, flags).bytes() > va - va
            % size.bytes() as int,
    ensures
        size.bytes() <= page_size_for(vaddr, mapper.map_fn(vaddr), left as int, flags).bytes(),
{
    let first = page_size_for(vaddr, mapper.map_fn(vaddr), left as int, flags);
    let p = va - va % size.bytes() as int;
    lemma_page_start(va, size);
    lemma_page_fits(vaddr, mapper.map_fn(vaddr), left, flags);
    if size.bytes() > first.bytes() {
        lemma_smaller_unit(p, size, first);
        lemma_no_multiple_between(vaddr as int, p, first);
        assert(huge_fits(size, vaddr, mapper.map_fn(vaddr), left as int, flags));
    }
}

/// A page starts at a multiple of its size.
pub(crate) proof fn lemma_page_start(va: int, size: PageSize)
    requires
        0 <= va,
    ensures
        (va - va % size.bytes() as int) % size.bytes() as int == 0,
        0 <= va % size.bytes() as int,
        va % size.bytes() as int <= va,
        va % (size.bytes() as int) < size.bytes(),
{
    match size {
        PageSize::Size4K => {
            assert(va - va % 0x1000 == va / 0x1000 * 0x1000);
        },
        PageSize::Size2M => {
            assert(va - va % 0x20_0000 == va / 0x20_0000 * 0x20_0000);
        },
        PageSize::Size1G => {
            assert(va - va % 0x4000_0000 == va / 0x4000_0000 * 0x4000_0000);
        },
    }
}

/// A huge page round an address behind the first page of a region can be part of the region if and
/// only if it can be part of what is left of it.
proof fn lemma_fits_in_rest(
    size: PageSize,
    vaddr: usize,
    left: usize,
    flags: MemFlags,
    mapper: Mapper,
    va: int,
)
    requires
        vaddr % PAGE_SIZE == 0,
        left % PAGE_SIZE == 0,
        0 < left,
        vaddr + left <= usize::MAX,
        vaddr + page_size_for(vaddr, mapper.map_fn(vaddr), left as int, flags).bytes() <= va,
    ensures
        ({
            let first = page_size_for(vaddr, mapper.map_fn(vaddr), left as int, flags);
            huge_page_fits(size, vaddr as int, left as int, flags, mapper, va) <==> huge_page_fits(
                size,
                vaddr + first.bytes(),
                left - first.bytes(),
                flags,
                mapper,
                va,
            )
        }),
{
    let first = page_size_for(vaddr, mapper.map_fn(vaddr), left as int, flags);
    let next = vaddr + first.bytes();
    let p = va - va % size.bytes() as int;
    lemma_page_start(va, size);
    lemma_page_fits(vaddr, mapper.map_fn(vaddr), left, flags);
    if huge_page_fits(size, vaddr as int, left as int, flags, mapper, va) && p < next {
        if size.bytes() > first.bytes() {
            lemma_first_is_largest(size, vaddr, left, flags, mapper, va);
        } else {
            lemma_next_page(vaddr as int, first);
            lemma_smaller_unit(next, first, size);
            lemma_no_multiple_between(p, next, size);
        }
    }
}

proof fn lemma_next_page(vaddr: int, size: PageSize)
    requires
        vaddr % size.bytes() as int == 0,
    ensures
        (vaddr + size.bytes()) % size.bytes() as int == 0,
{
    match size {
        PageSize::Size4K => {
            assert((vaddr + 0x1000) % 0x1000 == 0);
        },
        PageSize::Size2M => {
            assert((vaddr + 0x20_0000) % 0x20_0000 == 0);
        },
        PageSize::Size1G => {
            assert((vaddr + 0x4000_0000) % 0x4000_0000 == 0);
        },
    }
}

/// Taking the largest page that can start at each place gives every address the largest page that
/// fits round it.
pub(crate) proof fn lemma_region_step(
    vaddr: usize,
    left: usize,
    flags: MemFlags,
    mapper: Mapper,
    va: int,
)
    requires
        vaddr % PAGE_SIZE == 0,
        left % PAGE_SIZE == 0,
        0 < left,
        vaddr + left <= usize::MAX,
        vaddr <= va < vaddr + left,
    ensures
        ({
            let first = page_size_for(vaddr, mapper.map_fn(vaddr), left as int, flags);
            region_page(vaddr as int, left as int, flags, mapper, va) == if va < vaddr
                + first.bytes() {
                first
            } else {
                region_page(
                    vaddr + first.bytes(),
                    left - first.bytes(),
                    flags,
                    mapper,
                    va,
                )
            }
        }),
{
    let first = page_size_for(vaddr, mapper.map_fn(vaddr), left as int, flags);
    lemma_page_fits(vaddr, mapper.map_fn(vaddr), left, flags);
    if va < vaddr + first.bytes() {
        lemma_page_start(va, PageSize::Size1G);
        lemma_page_start(va, PageSize::Size2M);
        lemma_page_span(va, vaddr as int, first);
        if first != PageSize::Size1G && huge_page_fits(
            PageSize::Size1G,
            vaddr as int,
            left as int,
            flags,
            mapper,
            va,
        ) {
            lemma_first_is_largest(PageSize::Size1G, vaddr, left, flags, mapper, va);
        }
        if first == PageSize::Size4K && huge_page_fits(
            PageSize::Size2M,
            vaddr as int,
            left as int,
            flags,
            mapper,
            va,
        ) {
            lemma_first_is_largest(PageSize::Size2M, vaddr, left, flags, mapper, va);
        }
    } else {
        lemma_fits_in_rest(PageSize::Size1G, vaddr, left, flags, mapper, va);
        lemma_fits_in_rest(PageSize::Size2M, vaddr, left, flags, mapper, va);
    }
}

/// An address between two others lies in the span from the one to the other.
pub(crate) proof fn lemma_in_span(va: int, start: int, stop: int)
    requires
        start <= va < stop,
    ensures
        in_span(va, start, stop),
{
}

/// A page that starts where its frame does keeps its distance from the frame throughout.
pub(crate) proof fn lemma_offset(vaddr: usize, offset: usize, size: PageSize)
    requires
        offset % PAGE_SIZE == 0,
        size != PageSize::Size4K ==> Mapper::Offset(offset).map_fn(
            (vaddr - vaddr % size.bytes()) as usize,
        ) % size.bytes() == 0,
    ensures
        ({
            let first = Mapper::Offset(offset).map_fn((vaddr - vaddr % size.bytes()) as usize);
            page_start(first, size) + vaddr % size.bytes() == Mapper::Offset(offset).map_fn(vaddr)
        }),
{
    let all = usize::MAX + 1;
    let page = vaddr - vaddr % size.bytes();
    let first = Mapper::Offset(offset).map_fn(page as usize);
    lemma_page_start(vaddr as int, size);
    lemma_whole_pages(size);
    assert(first == wrapped(page, offset as int, all));
    assert(Mapper::Offset(offset).map_fn(vaddr) == wrapped(vaddr as int, offset as int, all));
    if size == PageSize::Size4K {
        assert(first % 0x1000 == 0);
    }
    lemma_wrapped(vaddr as int, offset as int, all, size);
}

/// The distance from `offset` up to `v`, modulo the address space.
spec fn wrapped(v: int, offset: int, all: int) -> int {
    if v < offset {
        v - offset + all
    } else {
        v - offset
    }
}

/// The address space is made of whole pages.
proof fn lemma_whole_pages(size: PageSize)
    ensures
        (usize::MAX + 1) % size.bytes() as int == 0,
{
    let all = usize::MAX + 1;
    assert(all == 0x1_0000_0000 || all == 0x1_0000_0000_0000_0000);
    match size {
        PageSize::Size4K => {
            assert(all % 0x1000 == 0);
        },
        PageSize::Size2M => {
            assert(all % 0x20_0000 == 0);
        },
        PageSize::Size1G => {
            assert(all % 0x4000_0000 == 0);
        },
    }
}

/// No page wraps round when its start does not.
proof fn lemma_wrapped(v: int, offset: int, all: int, size: PageSize)
    requires
        0 <= v < all,
        0 <= offset < all,
        all % size.bytes() as int == 0,
        wrapped(v - v % size.bytes() as int, offset, all) % size.bytes() as int == 0,
    ensures
        wrapped(v, offset, all) == wrapped(v - v % size.bytes() as int, offset, all) + v
            % size.bytes() as int,
{
    let page = v - v % size.bytes() as int;
    lemma_page_start(v, size);
    if page < offset {
        let first = page - offset + all;
        match size {
            PageSize::Size4K => {
                assert((all - first) % 0x1000 == 0);
            },
            PageSize::Size2M => {
                assert((all - first) % 0x20_0000 == 0);
            },
            PageSize::Size1G => {
                assert((all - first) % 0x4000_0000 == 0);
            },
        }
        assert(offset - page >= size.bytes());
    }
}

} // verus!
