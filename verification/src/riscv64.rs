//! `riscv64` (RV64GC): the register conventions of trap entry and exit.
//!
//! | ABI field         | Register |
//! | ----------------- | -------- |
//! | `mr0..mr3`        | `a0..a3` |
//! | message tag (raw) | `a4`     |
//! | syscall number    | `a7`     |
//!
//! The trap vector saves `x1..x31` and `sepc` into a 32-word area (`x{N}` at index
//! `N - 1`, `sepc` at [`RAW_SEPC`]). [`trap_entry_frame`] decides what the installed
//! handler sees for it, and [`trap_exit_registers`] what goes back into the
//! registers afterwards.

use vstd::prelude::*;
use crate::Hal;
use crate::trap::{MessageTag, TrapFrame, tag_word, tag_of_word, lemma_raw_roundtrip, MR_COUNT, RAW_WORDS};

verus! {

/// Index of `sepc` in the raw save area.
pub const RAW_SEPC: usize = 31;
/// Index of `x2` (`sp`).
pub const REG_SP: usize = 1;
pub const REG_A0: usize = 9;
pub const REG_A1: usize = 10;
pub const REG_A2: usize = 11;
pub const REG_A3: usize = 12;
pub const REG_A4: usize = 13;
pub const REG_A7: usize = 16;

/// "Environment call from U-mode", the only trap cause that is handled.
pub const SCAUSE_ECALL_FROM_U: usize = 8;

/// `satp` mode field value for Sv39.
pub const SATP_MODE_SV39: usize = 8;

/// The `riscv64` HAL implementation.
pub struct Hardware;

impl Hal for Hardware {
    open spec fn builds_initial_frames() -> bool {
        true
    }

    /// `pc` goes into the `sepc` slot, `sp` into `x2`, `arg0` into `a0`; everything
    /// else is zero.
    fn initial_trap_frame(pc: usize, sp: usize, arg0: usize) -> (frame: TrapFrame)
        ensures
            frame.raw_view() == Seq::new(RAW_WORDS as nat, |i: int| 0usize).update(
                RAW_SEPC as int,
                pc,
            ).update(REG_SP as int, sp).update(REG_A0 as int, arg0),
            frame.mrs_view() == Seq::new(MR_COUNT as nat, |i: int| 0usize),
            frame.tag_view() == 0,
            frame.syscall_view() == 0,
    {
        let mut frame = TrapFrame::zeroed();
        frame.set_raw_word(RAW_SEPC, pc);
        frame.set_raw_word(REG_SP, sp);
        frame.set_raw_word(REG_A0, arg0);
        frame
    }
}

/// The message registers `a0..a3` of a saved register area.
pub open spec fn saved_mrs(regs: Seq<usize>) -> Seq<usize> {
    seq![regs[REG_A0 as int], regs[REG_A1 as int], regs[REG_A2 as int], regs[REG_A3 as int]]
}

/// The save area with `sepc` moved past the 4-byte `ecall` that trapped.
pub open spec fn past_ecall(regs: Seq<usize>) -> Seq<usize> {
    regs.update(RAW_SEPC as int, regs[RAW_SEPC as int].wrapping_add(4))
}

/// The registers written back after the handler: the frame's whole raw area, then
/// `mr0..mr3` into `a0..a3` and the packed tag into `a4` on top.
pub open spec fn exit_registers(raw: Seq<usize>, mrs: Seq<usize>, tag: usize) -> Seq<usize> {
    raw.update(REG_A0 as int, mrs[0]).update(REG_A1 as int, mrs[1]).update(REG_A2 as int, mrs[2]).update(
        REG_A3 as int,
        mrs[3],
    ).update(REG_A4 as int, tag_word(tag_of_word(tag as int)) as usize)
}

/// The frame the handler sees for a trap with cause `scause` and save area `regs`:
/// `None` for any cause but an `ecall` from U-mode (the hart is then parked), else the
/// whole save area, with `sepc` already past the `ecall` (so a handler that switches
/// to another thread overrides it), `a0..a3` as `mr0..mr3`, `a4` as the tag and `a7`
/// as the syscall number.
pub fn trap_entry_frame(scause: usize, regs: &[usize; RAW_WORDS]) -> (frame: Option<TrapFrame>)
    ensures
        scause != SCAUSE_ECALL_FROM_U ==> frame is None,
        scause == SCAUSE_ECALL_FROM_U ==> (frame matches Some(f) && {
            &&& f.raw_view() == past_ecall(regs@)
            &&& f.mrs_view() == saved_mrs(regs@)
            &&& f.tag_view() == tag_word(tag_of_word(regs@[REG_A4 as int] as int)) as usize
            &&& f.syscall_view() == regs@[REG_A7 as int]
        }),
{
    if scause != SCAUSE_ECALL_FROM_U {
        return None;
    }
    let mut frame = TrapFrame::zeroed();
    let mut i: usize = 0;
    while i < RAW_WORDS
        invariant
            i <= RAW_WORDS,
            frame.raw_view().len() == RAW_WORDS,
            forall|j: int| 0 <= j < i ==> frame.raw_view()[j] == regs@[j],
            frame.mrs_view() == Seq::new(MR_COUNT as nat, |k: int| 0usize),
        decreases RAW_WORDS - i,
    {
        frame.set_raw_word(i, regs[i]);
        i = i + 1;
    }
    assert(frame.raw_view() =~= regs@);
    frame.set_raw_word(RAW_SEPC, regs[RAW_SEPC].wrapping_add(4));
    frame.set_mr(0, regs[REG_A0]);
    frame.set_mr(1, regs[REG_A1]);
    frame.set_mr(2, regs[REG_A2]);
    frame.set_mr(3, regs[REG_A3]);
    frame.set_tag(MessageTag::from_raw(regs[REG_A4]));
    frame.set_syscall_number(regs[REG_A7]);
    assert(frame.mrs_view() =~= saved_mrs(regs@));
    Some(frame)
}

/// The registers restored after the handler ran on `frame`: the whole raw area (which
/// carries a context switch's replacement state, `sepc` included), with `mr0..mr3`
/// and the tag applied on top so that a handler's reply is not lost.
pub fn trap_exit_registers(frame: &TrapFrame) -> (regs: [usize; RAW_WORDS])
    ensures
        regs@ == exit_registers(frame.raw_view(), frame.mrs_view(), frame.tag_view()),
{
    let mut regs = [0usize; RAW_WORDS];
    proof {
        frame.lemma_frame_shape();
    }
    let mut i: usize = 0;
    while i < RAW_WORDS
        invariant
            i <= RAW_WORDS,
            regs@.len() == RAW_WORDS,
            frame.raw_view().len() == RAW_WORDS,
            forall|j: int| 0 <= j < i ==> regs@[j] == frame.raw_view()[j],
        decreases RAW_WORDS - i,
    {
        regs[i] = frame.raw_word(i);
        i = i + 1;
    }
    assert(regs@ =~= frame.raw_view());
    regs[REG_A0] = frame.mr(0);
    regs[REG_A1] = frame.mr(1);
    regs[REG_A2] = frame.mr(2);
    regs[REG_A3] = frame.mr(3);
    regs[REG_A4] = frame.tag().into_raw();
    regs
}

/// A handler that leaves the frame as it found it resumes the trapping thread with
/// every register as it was, `sepc` just past its `ecall`.
pub proof fn lemma_untouched_frame_resumes_after_ecall(regs: Seq<usize>)
    requires
        regs.len() == RAW_WORDS,
    ensures
        exit_registers(
            past_ecall(regs),
            saved_mrs(regs),
            tag_word(tag_of_word(regs[REG_A4 as int] as int)) as usize,
        ) == past_ecall(regs),
{
    lemma_raw_roundtrip(regs[REG_A4 as int]);
    lemma_raw_roundtrip(tag_word(tag_of_word(regs[REG_A4 as int] as int)) as usize);
    assert(exit_registers(
        past_ecall(regs),
        saved_mrs(regs),
        tag_word(tag_of_word(regs[REG_A4 as int] as int)) as usize,
    ) =~= past_ecall(regs));
}

/// What the registers get back after the handler: every word of the frame's raw
/// area outside `a0..a4` (a context switch's whole replacement state, `sepc`
/// included), and the handler's `mr0..mr3` and tag in `a0..a4`, so a reply is never
/// lost under the full restore.
pub proof fn lemma_exit_carries_switch_and_reply(raw: Seq<usize>, mrs: Seq<usize>, tag: usize)
    requires
        raw.len() == RAW_WORDS,
        mrs.len() == MR_COUNT,
    ensures
        exit_registers(raw, mrs, tag).len() == RAW_WORDS,
        forall|i: int|
            0 <= i < RAW_WORDS && !(REG_A0 <= i <= REG_A4) ==> #[trigger] exit_registers(raw, mrs, tag)[i]
                == raw[i],
        exit_registers(raw, mrs, tag).subrange(REG_A0 as int, REG_A4 as int) == mrs,
        exit_registers(raw, mrs, tag)[REG_A4 as int] == tag,
{
    lemma_raw_roundtrip(tag);
    assert(exit_registers(raw, mrs, tag).subrange(REG_A0 as int, REG_A4 as int) =~= mrs);
}

/// The `satp` value that activates the Sv39 table at `root_paddr`: mode 8 in bits
/// 60..64, ASID 0, and the root's physical page number in the low bits.
pub fn sv39_satp(root_paddr: usize) -> (satp: usize)
    ensures
        satp == (0x8000_0000_0000_0000 + root_paddr as int / 4096) as usize,
{
    let r = root_paddr as u64;
    proof {
        lemma_satp_bits(r);
    }
    (((SATP_MODE_SV39 as u64) << 60u64) | (r >> 12u64)) as usize
}

proof fn lemma_satp_bits(r: u64)
    by (bit_vector)
    ensures
        (8u64 << 60u64) | (r >> 12u64) == 0x8000_0000_0000_0000u64 + r / 4096,
{
}

} // verus!
