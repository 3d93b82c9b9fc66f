//! Page tables of three levels, as a hypervisor keeps them for itself and its guests.
//!
//! The tables live in a [`memory::PhysMemory`]. [`table`] reads them, [`level3`] changes them and
//! shares them between a page table and its clones. What the tables mean is said in [`model`], what
//! each operation makes of them in [`change`]; the modules whose names end in `laws` state what
//! follows for whoever uses a page table.
pub mod addr;
pub mod bit_laws;
pub mod change;
pub mod clone_laws;
pub mod entry;
pub mod error;
pub mod flags;
pub mod instr;
pub mod laws;
mod lemmas;
pub mod level3;
mod lock;
pub mod memory;
pub mod memory_laws;
pub mod model;
pub mod page;
pub mod plain_laws;
pub mod region;
pub mod region_laws;
pub mod spans;
pub mod sv39;
pub mod table;
pub mod table_laws;
pub mod translation_laws;
mod unlocked;
pub mod vacancy_laws;
pub mod walk_laws;
