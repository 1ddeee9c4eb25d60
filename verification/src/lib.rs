//! Hardware abstraction layer: the trap/IPC frame contract, the Sv39 page-table
//! format, and the per-architecture register conventions.

pub mod riscv64;
pub mod riscv64_paging;
pub mod trap;
pub mod x86_64;

use vstd::prelude::*;

pub use riscv64_paging::{
    map as riscv64_map_page, map_megapage as riscv64_map_megapage, translate as riscv64_translate,
    PageTable as Riscv64PageTable, PteFlags as Riscv64PteFlags, MEGAPAGE_SIZE as RISCV64_MEGAPAGE_SIZE,
    PAGE_SIZE as RISCV64_PAGE_SIZE,
};
pub use trap::{MessageTag, TrapFrame, FLAG_ERROR, MR_COUNT};

verus! {

/// The trap/IPC contract every HAL target implements. The portable kernel core
/// depends only on this trait and on [`TrapFrame`]'s accessors, never on a register
/// name or number.
pub trait Hal {
    /// Whether this target builds initial thread frames yet.
    spec fn builds_initial_frames() -> bool;

    /// Builds the initial register state for a thread that has never run: `pc` is
    /// where it starts executing, `sp` its initial stack pointer, `arg0` its first
    /// argument, each in the slot this architecture's calling convention uses.
    fn initial_trap_frame(pc: usize, sp: usize, arg0: usize) -> TrapFrame
        requires
            Self::builds_initial_frames(),
    ;
}

} // verus!
