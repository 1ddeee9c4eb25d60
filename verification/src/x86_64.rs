//! `x86-64`: the register conventions of the `int 0x80` syscall gate.
//!
//! | ABI field         | Register |
//! | ----------------- | -------- |
//! | `mr0..mr3`        | `rdi, rsi, rdx, rcx` |
//! | message tag (raw) | `r8` |
//! | syscall number    | `rax` |
//!
//! The trap stub pushes `rax, rbx, rcx, rdx, rsi, rdi, rbp, r8..r15` and the
//! hardware-pushed `rip`/`cs`/`rflags` follow: an 18-word frame whose word 0 is the
//! last push. [`trap_entry_frame`] hands the handler the whole frame, and
//! [`trap_write_back`] restores it with the answer on top. The descriptor that sends vector
//! [`SYSCALL_VECTOR`] to the stub is an [`IdtEntry`].

use vstd::prelude::*;
use crate::Hal;
use crate::trap::{MessageTag, TrapFrame, tag_word, tag_of_word, lemma_raw_roundtrip, MR_COUNT, RAW_WORDS};

verus! {

/// The interrupt vector dedicated to syscalls.
pub const SYSCALL_VECTOR: usize = 0x80;

/// Number of IDT entries: enough to cover [`SYSCALL_VECTOR`].
pub const IDT_ENTRIES: usize = 0x81;

/// Words in the saved trap frame.
pub const FRAME_WORDS: usize = 18;

pub const REG_RAX: usize = 0;
pub const REG_RCX: usize = 2;
pub const REG_RDX: usize = 3;
pub const REG_RSI: usize = 4;
pub const REG_RDI: usize = 5;
pub const REG_R8: usize = 7;

/// Present bit of a gate's type/attribute byte.
pub const GATE_PRESENT: u8 = 0x80;

/// Gate type 0xE: 64-bit interrupt gate (`rflags.IF` cleared on entry).
pub const TYPE_INTERRUPT_GATE: u8 = 0xE;

/// The `x86-64` HAL implementation.
pub struct Hardware;

impl Hal for Hardware {
    /// There is no `x86-64` boot target yet to run a thread from an initial frame.
    open spec fn builds_initial_frames() -> bool {
        false
    }

    /// Not callable: `builds_initial_frames` is false until `x86-64` has a boot
    /// target that enters threads.
    fn initial_trap_frame(_pc: usize, _sp: usize, _arg0: usize) -> (frame: TrapFrame) {
        TrapFrame::zeroed()
    }
}

/// A 64-bit IDT gate descriptor: the handler address split over three fields, the
/// code-segment selector, the IST index and the type/attribute byte.
#[derive(Clone, Copy, Debug, PartialEq, Eq, Structural)]
pub struct IdtEntry {
    pub offset_low: u16,
    pub selector: u16,
    pub ist: u8,
    pub type_attr: u8,
    pub offset_mid: u16,
    pub offset_high: u32,
    pub reserved: u32,
}

/// The handler address a descriptor names.
pub open spec fn gate_offset(e: IdtEntry) -> int {
    e.offset_low as int + e.offset_mid as int * 0x1_0000 + e.offset_high as int * 0x1_0000_0000
}

proof fn lemma_offset_bits(h: u64)
    by (bit_vector)
    ensures
        (h & 0xFFFFu64) == h % 0x1_0000,
        ((h >> 16u64) & 0xFFFFu64) == (h / 0x1_0000) % 0x1_0000,
        h >> 32u64 == h / 0x1_0000_0000,
        h % 0x1_0000 + ((h / 0x1_0000) % 0x1_0000) * 0x1_0000 + (h / 0x1_0000_0000) * 0x1_0000_0000
            == h,
{
}

proof fn lemma_gate_attr()
    by (bit_vector)
    ensures
        (0x80u8 | 0xEu8) == 0x8Eu8,
{
}

impl IdtEntry {
    /// An absent descriptor: every field zero, so `present = 0`.
    pub fn missing() -> (e: Self)
        ensures
            e == (IdtEntry {
                offset_low: 0,
                selector: 0,
                ist: 0,
                type_attr: 0,
                offset_mid: 0,
                offset_high: 0,
                reserved: 0,
            }),
    {
        Self {
            offset_low: 0,
            selector: 0,
            ist: 0,
            type_attr: 0,
            offset_mid: 0,
            offset_high: 0,
            reserved: 0,
        }
    }

    /// A present, `DPL=0` 64-bit interrupt gate targeting `handler` in code segment
    /// `selector`.
    pub fn interrupt_gate(handler: usize, selector: u16) -> (e: Self)
        ensures
            e.offset_low == handler as int % 0x1_0000,
            e.offset_mid == (handler as int / 0x1_0000) % 0x1_0000,
            e.offset_high == handler as int / 0x1_0000_0000,
            e.selector == selector,
            e.ist == 0,
            e.type_attr == 0x8E,
            e.reserved == 0,
    {
        let h = handler as u64;
        proof {
            lemma_offset_bits(h);
            lemma_gate_attr();
        }
        Self {
            offset_low: (h & 0xFFFFu64) as u16,
            selector,
            ist: 0,
            type_attr: GATE_PRESENT | TYPE_INTERRUPT_GATE,
            offset_mid: ((h >> 16u64) & 0xFFFFu64) as u16,
            offset_high: (h >> 32u64) as u32,
            reserved: 0,
        }
    }
}

/// A gate's three offset fields put together give back the handler address.
pub proof fn lemma_gate_offset_roundtrip(handler: usize, e: IdtEntry)
    requires
        e.offset_low == handler as int % 0x1_0000,
        e.offset_mid == (handler as int / 0x1_0000) % 0x1_0000,
        e.offset_high == handler as int / 0x1_0000_0000,
    ensures
        gate_offset(e) == handler,
{
    lemma_offset_bits(handler as u64);
}

/// The IDT that routes [`SYSCALL_VECTOR`] to `handler`: every other vector absent.
pub fn syscall_idt(handler: usize, selector: u16) -> (idt: Vec<IdtEntry>)
    ensures
        idt@.len() == IDT_ENTRIES,
        idt@[SYSCALL_VECTOR as int] == IdtEntry::interrupt_gate_result(handler, selector),
        forall|i: int| 0 <= i < IDT_ENTRIES && i != SYSCALL_VECTOR ==> idt@[i] == (IdtEntry {
            offset_low: 0,
            selector: 0,
            ist: 0,
            type_attr: 0,
            offset_mid: 0,
            offset_high: 0,
            reserved: 0,
        }),
{
    let mut idt: Vec<IdtEntry> = Vec::new();
    let mut i: usize = 0;
    while i < IDT_ENTRIES
        invariant
            i <= IDT_ENTRIES,
            idt@.len() == i,
            forall|j: int| 0 <= j < i ==> idt@[j] == (IdtEntry {
                offset_low: 0,
                selector: 0,
                ist: 0,
                type_attr: 0,
                offset_mid: 0,
                offset_high: 0,
                reserved: 0,
            }),
        decreases IDT_ENTRIES - i,
    {
        idt.push(IdtEntry::missing());
        i = i + 1;
    }
    idt.set(SYSCALL_VECTOR, IdtEntry::interrupt_gate(handler, selector));
    idt
}

impl IdtEntry {
    /// The descriptor [`IdtEntry::interrupt_gate`] builds.
    pub open spec fn interrupt_gate_result(handler: usize, selector: u16) -> IdtEntry {
        IdtEntry {
            offset_low: (handler as int % 0x1_0000) as u16,
            selector,
            ist: 0,
            type_attr: 0x8E,
            offset_mid: ((handler as int / 0x1_0000) % 0x1_0000) as u16,
            offset_high: (handler as int / 0x1_0000_0000) as u32,
            reserved: 0,
        }
    }
}

/// The message registers `rdi, rsi, rdx, rcx` of a saved frame.
pub open spec fn saved_mrs(regs: Seq<usize>) -> Seq<usize> {
    seq![regs[REG_RDI as int], regs[REG_RSI as int], regs[REG_RDX as int], regs[REG_RCX as int]]
}

/// The raw save area holding a saved frame: its 18 words, then zeros.
pub open spec fn saved_raw(regs: Seq<usize>) -> Seq<usize> {
    regs + Seq::new((RAW_WORDS - FRAME_WORDS) as nat, |i: int| 0usize)
}

/// The frame the handler sees: the whole saved frame (general-purpose registers and
/// the hardware-pushed `rip`/`cs`/`rflags`) in the first 18 raw words, `mr0..mr3`
/// from `rdi, rsi, rdx, rcx`, the tag from `r8`, the syscall number from `rax`.
pub fn trap_entry_frame(regs: &[usize; FRAME_WORDS]) -> (frame: TrapFrame)
    ensures
        frame.raw_view() == saved_raw(regs@),
        frame.mrs_view() == saved_mrs(regs@),
        frame.tag_view() == tag_word(tag_of_word(regs@[REG_R8 as int] as int)) as usize,
        frame.syscall_view() == regs@[REG_RAX as int],
{
    let mut frame = TrapFrame::zeroed();
    let mut i: usize = 0;
    while i < FRAME_WORDS
        invariant
            i <= FRAME_WORDS,
            frame.raw_view().len() == RAW_WORDS,
            forall|j: int| 0 <= j < i ==> frame.raw_view()[j] == regs@[j],
            forall|j: int| FRAME_WORDS <= j < RAW_WORDS ==> frame.raw_view()[j] == 0,
            frame.mrs_view() == Seq::new(MR_COUNT as nat, |k: int| 0usize),
            frame.tag_view() == 0,
            frame.syscall_view() == 0,
        decreases FRAME_WORDS - i,
    {
        frame.set_raw_word(i, regs[i]);
        i = i + 1;
    }
    assert(frame.raw_view() =~= saved_raw(regs@));
    frame.set_mr(0, regs[REG_RDI]);
    frame.set_mr(1, regs[REG_RSI]);
    frame.set_mr(2, regs[REG_RDX]);
    frame.set_mr(3, regs[REG_RCX]);
    frame.set_tag(MessageTag::from_raw(regs[REG_R8]));
    frame.set_syscall_number(regs[REG_RAX]);
    assert(frame.mrs_view() =~= saved_mrs(regs@));
    frame
}

/// The saved frame restored after the handler: the first 18 raw words (which carry
/// a context switch's whole replacement state, `rip` included), with `mr0..mr3` in
/// `rdi, rsi, rdx, rcx` and the packed tag in `r8` on top, so a reply is not lost.
pub open spec fn written_back(raw: Seq<usize>, mrs: Seq<usize>, tag: usize) -> Seq<usize> {
    raw.subrange(0, FRAME_WORDS as int).update(REG_RDI as int, mrs[0]).update(REG_RSI as int, mrs[1]).update(
        REG_RDX as int,
        mrs[2],
    ).update(REG_RCX as int, mrs[3]).update(REG_R8 as int, tag_word(tag_of_word(tag as int)) as usize)
}

/// Writes the frame the handler left back into the saved frame.
pub fn trap_write_back(frame: &TrapFrame, regs: &mut [usize; FRAME_WORDS])
    ensures
        final(regs)@ == written_back(frame.raw_view(), frame.mrs_view(), frame.tag_view()),
{
    proof {
        frame.lemma_frame_shape();
    }
    let mut i: usize = 0;
    while i < FRAME_WORDS
        invariant
            i <= FRAME_WORDS,
            regs@.len() == FRAME_WORDS,
            frame.raw_view().len() == RAW_WORDS,
            forall|j: int| 0 <= j < i ==> regs@[j] == frame.raw_view()[j],
        decreases FRAME_WORDS - i,
    {
        regs[i] = frame.raw_word(i);
        i = i + 1;
    }
    assert(regs@ =~= frame.raw_view().subrange(0, FRAME_WORDS as int));
    regs[REG_RDI] = frame.mr(0);
    regs[REG_RSI] = frame.mr(1);
    regs[REG_RDX] = frame.mr(2);
    regs[REG_RCX] = frame.mr(3);
    regs[REG_R8] = frame.tag().into_raw();
    assert(regs@ =~= written_back(frame.raw_view(), frame.mrs_view(), frame.tag_view()));
}

/// What the saved frame gets back after the handler: every raw word outside the ABI
/// registers (a context switch's replacement state, the hardware-saved `rip`
/// among them), and the handler's `mr0..mr3` and tag in `rdi, rsi, rdx, rcx` and
/// `r8`.
pub proof fn lemma_write_back_carries_switch_and_reply(raw: Seq<usize>, mrs: Seq<usize>, tag: usize)
    requires
        raw.len() == RAW_WORDS,
        mrs.len() == MR_COUNT,
    ensures
        written_back(raw, mrs, tag).len() == FRAME_WORDS,
        forall|i: int|
            0 <= i < FRAME_WORDS && i != REG_RDI && i != REG_RSI && i != REG_RDX && i != REG_RCX && i
                != REG_R8 ==> #[trigger] written_back(raw, mrs, tag)[i] == raw[i],
        saved_mrs(written_back(raw, mrs, tag)) == mrs,
        written_back(raw, mrs, tag)[REG_R8 as int] == tag,
{
    lemma_raw_roundtrip(tag);
    assert(saved_mrs(written_back(raw, mrs, tag)) =~= mrs);
}

/// A handler that leaves the frame as it found it returns with every saved word
/// unchanged.
pub proof fn lemma_untouched_frame_leaves_registers(regs: Seq<usize>)
    requires
        regs.len() == FRAME_WORDS,
    ensures
        written_back(saved_raw(regs), saved_mrs(regs), tag_word(tag_of_word(regs[REG_R8 as int] as int)) as usize)
            == regs,
{
    lemma_raw_roundtrip(regs[REG_R8 as int]);
    lemma_raw_roundtrip(tag_word(tag_of_word(regs[REG_R8 as int] as int)) as usize);
    assert(saved_raw(regs).subrange(0, FRAME_WORDS as int) =~= regs);
    assert(written_back(saved_raw(regs), saved_mrs(regs), tag_word(tag_of_word(regs[REG_R8 as int] as int)) as usize)
        =~= regs);
}

} // verus!
