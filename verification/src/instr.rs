//! What a page table needs of the machine.
use vstd::prelude::*;

use crate::addr::PhysAddr;

verus! {

/// The instructions of the machine that concern page tables.
///
/// What the machine is told cannot be read back, so it is written into the signatures. Each thing
/// that the machine can be told is a namespace of its own: `2 * root` to translate through the
/// table at `root`, `2 * vaddr + 1` to drop the translation of `vaddr`, and `-1` to drop them all.
/// A function that lists such a namespace after `opens_invariants` may tell the machine this, and
/// nothing else.
pub trait PagingInstr {
    /// Makes the machine translate through the table at `root_paddr`.
    fn activate(root_paddr: PhysAddr)
        opens_invariants [ 2 * (root_paddr as int) ]
    ;

    /// Makes the machine drop what it keeps of the translation of `vaddr` or, without an
    /// address, of every translation.
    fn flush(vaddr: Option<usize>)
        opens_invariants [ match vaddr {
            Some(va) => 2 * (va as int) + 1,
            None => -1int,
        } ]
    ;
}

} // verus!
