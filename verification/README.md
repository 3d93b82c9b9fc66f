# paging

Page tables of three levels, as a hypervisor keeps them for itself and its guests: pages of 4 KiB,
2 MiB and 1 GiB, regions that are mapped by the largest pages that fit, queries, updates, and clones
that share everything below the root with their original. Every function of the library is verified
with Verus, but for the two calls into the crate `spin` that make and hold a lock.

## Layout

- `src/addr.rs`, `src/page.rs`, `src/flags.rs`, `src/region.rs`, `src/error.rs`: addresses, pages,
  flags, regions and errors.
- `src/memory.rs`: the physical memory that holds the tables, and the frames that are taken from it.
- `src/entry.rs`: what a page table relies on of the format of its entries; `src/sv39.rs` is the
  format of RISC-V Sv39.
- `src/table.rs`: page tables that are only read; `src/unlocked.rs` and `src/level3.rs`: page tables
  that are changed, without and with the lock that a page table shares with its clones
  (`src/lock.rs`, from the crate `spin`).
- `src/model.rs`: what a page table means, as a function of the memory and of the address of its
  root. `src/change.rs`: what each operation makes of the memory.
- `src/laws.rs`, `src/region_laws.rs`, `src/translation_laws.rs`, `src/vacancy_laws.rs`,
  `src/table_laws.rs`, `src/clone_laws.rs`, `src/walk_laws.rs`: what holds of single pages, of whole
  regions, of the translation of their addresses, when a region can be mapped, of the tables that a
  page table is made of, between a page table and its clones, and of walks. `src/spans.rs` says
  which pages a region is mapped by.
- `app/`: the memory of the machine, and printing.

## Model

The view of a `PhysMemory` is a `Memory`: a table of 512 entries for every frame, and the set of
frames in use. `Memory::leaf` says by which entry an address is translated; `Memory::map_run`,
`Memory::unmap_run`, `Memory::update_page` and `Memory::clone_root` say what the operations do. The
invariant of a page table is `Memory::tree`: its tables are in use, and each is met on one way only.
A page table and its clones keep `Memory::clones`: a table that is met from both is met behind the
same entry of both roots.
